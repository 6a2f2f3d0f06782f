//! Ordered and sequenced delivery. Order and sequence indices live in a
//! circular 24-bit space: "newer than" is decided by signed circular
//! distance, never by plain integer comparison, so wraparound is harmless.
//! An ordered channel releases payloads strictly in index succession,
//! buffering early arrivals; a sequenced channel keeps only the newest.

use vstd::prelude::*;

verus! {

/// The size of the circular index space (24-bit counters).
pub const INDEX_SPACE: u32 = 0x1000000;

/// The circular distance walked forward from `b` to `a`.
pub open spec fn spec_circ_diff(a: u32, b: u32) -> int
    recommends
        a < INDEX_SPACE,
        b < INDEX_SPACE,
{
    if a >= b {
        a - b
    } else {
        a + INDEX_SPACE - b
    }
}

/// `a` is newer than `b`: strictly ahead, by less than half the space.
pub open spec fn spec_newer(a: u32, b: u32) -> bool
    recommends
        a < INDEX_SPACE,
        b < INDEX_SPACE,
{
    0 < spec_circ_diff(a, b) < 0x800000
}

/// The index `n` steps after `i`, wrapping inside the 24-bit space.
pub open spec fn spec_add_mod(i: u32, n: nat) -> u32
    recommends
        i < INDEX_SPACE,
{
    ((i + n) % (INDEX_SPACE as int)) as u32
}

/// The successor of `i` in the circular space.
pub open spec fn spec_next_index(i: u32) -> u32
    recommends
        i < INDEX_SPACE,
{
    spec_add_mod(i, 1)
}

proof fn lemma_mod_space(v: int)
    requires
        0 <= v < 2 * (INDEX_SPACE as int),
    ensures
        v % (INDEX_SPACE as int) == if v < INDEX_SPACE {
            v
        } else {
            v - INDEX_SPACE
        },
{
    if v < INDEX_SPACE {
        assert(v % (INDEX_SPACE as int) == v) by (nonlinear_arith)
            requires
                0 <= v < INDEX_SPACE,
        ;
    } else {
        assert(v % (INDEX_SPACE as int) == v - INDEX_SPACE) by (nonlinear_arith)
            requires
                INDEX_SPACE <= v < 2 * (INDEX_SPACE as int),
        ;
    }
}

/// Walking `m` steps from `base` lands exactly `m` away, and one more step
/// is the successor.
pub proof fn lemma_add_mod_steps(base: u32, m: nat)
    requires
        base < INDEX_SPACE,
        m < INDEX_SPACE,
    ensures
        spec_add_mod(base, m) < INDEX_SPACE,
        spec_circ_diff(spec_add_mod(base, m), base) == m,
        spec_next_index(spec_add_mod(base, m)) == spec_add_mod(base, m + 1),
{
    lemma_mod_space(base + m);
    lemma_mod_space(base + m + 1);
    let a = spec_add_mod(base, m);
    lemma_mod_space(a + 1);
}

/// An index is its base walked forward by their circular distance: the
/// distance determines the index.
pub proof fn lemma_diff_determines(base: u32, x: u32)
    requires
        base < INDEX_SPACE,
        x < INDEX_SPACE,
    ensures
        0 <= spec_circ_diff(x, base) < INDEX_SPACE,
        spec_add_mod(base, spec_circ_diff(x, base) as nat) == x,
{
    lemma_mod_space(base + spec_circ_diff(x, base));
}

/// Advancing the base by `m` shortens the distance of anything at least `m`
/// ahead by exactly `m`; anything nearer wraps to the far side.
pub proof fn lemma_diff_shift(x: u32, base: u32, m: nat)
    requires
        x < INDEX_SPACE,
        base < INDEX_SPACE,
        m < INDEX_SPACE,
    ensures
        spec_circ_diff(x, spec_add_mod(base, m)) == if m <= spec_circ_diff(x, base) {
            spec_circ_diff(x, base) - m
        } else {
            INDEX_SPACE + spec_circ_diff(x, base) - m
        },
{
    lemma_mod_space(base + m);
}

/// Newness is irreflexive and antisymmetric: of two distinct indices at
/// most one is newer, and none is newer than itself. So a sequenced channel
/// never accepts an index it has already moved past.
pub proof fn lemma_newer_antisymmetric(a: u32, b: u32)
    requires
        a < INDEX_SPACE,
        b < INDEX_SPACE,
    ensures
        !spec_newer(a, a),
        spec_newer(a, b) ==> !spec_newer(b, a),
{
    if a != b {
        assert(spec_circ_diff(a, b) + spec_circ_diff(b, a) == INDEX_SPACE);
    }
}

/// Decides whether `a` is newer than `b` by signed circular distance.
pub fn newer_than(a: u32, b: u32) -> (r: bool)
    requires
        a < INDEX_SPACE,
        b < INDEX_SPACE,
    ensures
        r == spec_newer(a, b),
{
    let d: u32 = if a >= b {
        a - b
    } else {
        a + INDEX_SPACE - b
    };
    0 < d && d < 0x800000
}

/// The successor of `i`, wrapping at the top of the space.
pub fn next_index(i: u32) -> (r: u32)
    requires
        i < INDEX_SPACE,
    ensures
        r == spec_next_index(i),
        r < INDEX_SPACE,
{
    proof {
        lemma_mod_space(i + 1);
    }
    if i == INDEX_SPACE - 1 {
        0
    } else {
        i + 1
    }
}

/// A sequenced receive channel: newest wins, stale arrivals are dropped.
pub struct SequencedChannel {
    /// Whether any index was accepted yet.
    pub started: bool,
    /// The newest accepted index (meaningful once `started`).
    pub latest: u32,
}

impl SequencedChannel {
    pub open spec fn wf(&self) -> bool {
        self.latest < INDEX_SPACE
    }

    pub fn new() -> (r: Self)
        ensures
            r.wf(),
            !r.started,
    {
        Self { started: false, latest: 0 }
    }

    /// Accepts `index` exactly when it is the first arrival or newer than
    /// every index accepted before; anything else is stale and dropped.
    pub fn accept(&mut self, index: u32) -> (r: bool)
        requires
            old(self).wf(),
            index < INDEX_SPACE,
        ensures
            final(self).wf(),
            r == (!old(self).started || spec_newer(index, old(self).latest)),
            r ==> final(self).started && final(self).latest == index,
            !r ==> *final(self) == *old(self),
    {
        if !self.started || newer_than(index, self.latest) {
            self.started = true;
            self.latest = index;
            true
        } else {
            false
        }
    }
}

/// One buffered early arrival of an ordered channel.
pub struct OrderedFrame {
    pub index: u32,
    pub payload: Vec<u8>,
}

/// The most early arrivals an ordered channel buffers; beyond it, new early
/// arrivals are dropped to bound memory.
pub const MAX_PENDING: usize = 4096;

/// An ordered receive channel: payloads come out strictly in index
/// succession; an early arrival waits buffered until the gap before it is
/// filled; stale and duplicate indices are dropped.
pub struct OrderChannel {
    /// The next index owed to the application.
    pub next: u32,
    /// Early arrivals, waiting for the gap before them to fill.
    pub pending: Vec<OrderedFrame>,
}

/// What an in-order arrival releases: the arrived payload first, then the
/// buffered payloads of the consecutively following indices, in order.
pub open spec fn delivered_from(ch: OrderChannel, out: Seq<Seq<u8>>, first: Seq<u8>) -> bool {
    &&& out.len() >= 1
    &&& out[0] == first
    &&& forall|k: int|
        1 <= k < out.len() ==> ch.spec_pending_has(#[trigger] spec_add_mod(ch.next, k as nat))
            && out[k] == ch.spec_pending_payload(spec_add_mod(ch.next, k as nat))
}

/// After delivery, exactly the arrivals still ahead of the new cursor wait
/// on, with their payloads untouched.
pub open spec fn pending_kept(old_ch: OrderChannel, new_ch: OrderChannel) -> bool {
    forall|x: u32|
        #![trigger old_ch.spec_pending_has(x)]
        #![trigger new_ch.spec_pending_has(x)]
        x < INDEX_SPACE ==> {
            &&& (new_ch.spec_pending_has(x) <==> (old_ch.spec_pending_has(x) && spec_newer(
                x,
                new_ch.next,
            )))
            &&& (new_ch.spec_pending_has(x) ==> new_ch.spec_pending_payload(x)
                == old_ch.spec_pending_payload(x))
        }
}

/// Whether some buffered arrival in `s` carries `index`.
pub open spec fn pending_has(s: Seq<OrderedFrame>, index: u32) -> bool {
    exists|i: int| 0 <= i < s.len() && s[i].index == index
}

/// The buffered payload under `index` in `s` (meaningful under `pending_has`).
pub open spec fn pending_payload(s: Seq<OrderedFrame>, index: u32) -> Seq<u8> {
    s[choose|i: int| 0 <= i < s.len() && s[i].index == index].payload@
}

impl OrderChannel {
    /// No two buffered arrivals share an index, every index is in range,
    /// and the buffer is bounded.
    pub open spec fn pending_distinct(&self) -> bool {
        &&& forall|i: int|
            0 <= i < self.pending@.len() ==> (#[trigger] self.pending@[i].index) < INDEX_SPACE
        &&& forall|i: int, j: int|
            0 <= i < j < self.pending@.len() ==> self.pending@[i].index != self.pending@[j].index
        &&& self.pending@.len() <= MAX_PENDING
    }

    pub open spec fn wf(&self) -> bool {
        &&& self.next < INDEX_SPACE
        &&& self.pending_distinct()
        &&& forall|i: int|
            0 <= i < self.pending@.len() ==> spec_newer(
                (#[trigger] self.pending@[i].index),
                self.next,
            )
    }

    /// Whether an early arrival with `index` waits in the buffer.
    pub open spec fn spec_pending_has(&self, index: u32) -> bool {
        pending_has(self.pending@, index)
    }

    /// The buffered payload under `index` (meaningful under `spec_pending_has`).
    pub open spec fn spec_pending_payload(&self, index: u32) -> Seq<u8> {
        pending_payload(self.pending@, index)
    }

    pub fn new() -> (r: Self)
        ensures
            r.wf(),
            r.next == 0,
            r.pending@.len() == 0,
    {
        Self { next: 0, pending: Vec::new() }
    }

    /// Finds the buffered position of `index`.
    fn find_pending(&self, index: u32) -> (r: Option<usize>)
        ensures
            match r {
                Some(i) => i < self.pending@.len() && self.pending@[i as int].index == index,
                None => !self.spec_pending_has(index),
            },
    {
        let mut i: usize = 0;
        while i < self.pending.len()
            invariant
                i <= self.pending@.len(),
                forall|j: int| 0 <= j < i ==> self.pending@[j].index != index,
            decreases self.pending@.len() - i,
        {
            if self.pending[i].index == index {
                return Some(i);
            }
            i = i + 1;
        }
        None
    }

    /// Removes and returns the buffered payload under `index`, if any;
    /// every other buffered arrival stays as it was.
    fn take_pending(&mut self, index: u32) -> (r: Option<Vec<u8>>)
        requires
            old(self).pending_distinct(),
        ensures
            final(self).pending_distinct(),
            final(self).next == old(self).next,
            match r {
                Some(p) => pending_has(old(self).pending@, index) && p@ == pending_payload(
                    old(self).pending@,
                    index,
                ) && !pending_has(final(self).pending@, index) && final(self).pending@.len() + 1
                    == old(self).pending@.len() && (forall|x: u32|
                    x != index ==> (#[trigger] pending_has(final(self).pending@, x))
                        == pending_has(old(self).pending@, x)) && (forall|x: u32|
                    x != index && pending_has(final(self).pending@, x) ==> (
                    #[trigger] pending_payload(final(self).pending@, x)) == pending_payload(
                        old(self).pending@,
                        x,
                    )),
                None => !pending_has(old(self).pending@, index) && *final(self) == *old(self),
            },
    {
        match self.find_pending(index) {
            Some(i) => {
                let ghost pre = self.pending@;
                let f = self.pending.remove(i);
                proof {
                    let cur = self.pending@;
                    assert forall|x: u32| x != index implies (#[trigger] pending_has(cur, x))
                        == pending_has(pre, x) by {
                        if pending_has(pre, x) {
                            let j = choose|j: int| 0 <= j < pre.len() && pre[j].index == x;
                            if j < i {
                                assert(cur[j].index == x);
                            } else {
                                assert(cur[j - 1].index == x);
                            }
                        }
                        if pending_has(cur, x) {
                            let j = choose|j: int| 0 <= j < cur.len() && cur[j].index == x;
                            if j < i {
                                assert(pre[j].index == x);
                            } else {
                                assert(pre[j + 1].index == x);
                            }
                        }
                    }
                    assert forall|x: u32|
                        x != index && pending_has(cur, x) implies (#[trigger] pending_payload(
                        cur,
                        x,
                    )) == pending_payload(pre, x) by {
                        let j = choose|j: int| 0 <= j < cur.len() && cur[j].index == x;
                        let jo = if j < i {
                            j
                        } else {
                            j + 1
                        };
                        assert(pre[jo].index == x);
                        let jc = choose|jc: int| 0 <= jc < pre.len() && pre[jc].index == x;
                        assert(jc == jo);
                        assert(pending_payload(pre, x) == pre[jo].payload@);
                    }
                    assert(!pending_has(cur, index)) by {
                        if pending_has(cur, index) {
                            let j = choose|j: int| 0 <= j < cur.len() && cur[j].index == index;
                            if j < i {
                                assert(pre[j].index == index && pre[i as int].index == index);
                            } else {
                                assert(pre[j + 1].index == index && pre[i as int].index == index);
                            }
                        }
                    }
                    let jc = choose|jc: int| 0 <= jc < pre.len() && pre[jc].index == index;
                    assert(jc == i);
                    assert(pending_payload(pre, index) == f.payload@);
                }
                Some(f.payload)
            },
            None => None,
        }
    }

    /// Hands one arrived payload to the channel. An in-order arrival is
    /// released at once, together with every buffered arrival that now
    /// follows consecutively; an early arrival is buffered (dropped when a
    /// duplicate, or when the buffer is full); a stale arrival is dropped.
    #[verifier::loop_isolation(false)]
    pub fn receive(&mut self, index: u32, payload: Vec<u8>) -> (out: Vec<Vec<u8>>)
        requires
            old(self).wf(),
            index < INDEX_SPACE,
        ensures
            final(self).wf(),
            index != old(self).next && !spec_newer(index, old(self).next) ==> out@.len() == 0
                && *final(self) == *old(self),
            spec_newer(index, old(self).next) ==> out@.len() == 0 && final(self).next == old(
                self,
            ).next && {
                if old(self).spec_pending_has(index) || old(self).pending@.len() >= MAX_PENDING {
                    *final(self) == *old(self)
                } else {
                    &&& final(self).spec_pending_has(index)
                    &&& final(self).spec_pending_payload(index) == payload@
                    &&& final(self).pending@.len() == old(self).pending@.len() + 1
                    &&& forall|x: u32|
                        x != index ==> (#[trigger] pending_has(final(self).pending@, x))
                            == pending_has(old(self).pending@, x) && (pending_has(
                            final(self).pending@,
                            x,
                        ) ==> pending_payload(final(self).pending@, x) == pending_payload(
                            old(self).pending@,
                            x,
                        ))
                }
            },
            index == old(self).next ==> {
                &&& delivered_from(*old(self), out.deep_view(), payload@)
                &&& out@.len() <= 1 + old(self).pending@.len()
                &&& final(self).next == spec_add_mod(old(self).next, out@.len() as nat)
                &&& pending_kept(*old(self), *final(self))
                &&& !old(self).spec_pending_has(spec_add_mod(old(self).next, out@.len() as nat))
            },
    {
        let ghost o = *old(self);
        let mut out: Vec<Vec<u8>> = Vec::new();
        if index == self.next {
            let ghost p0 = payload@;
            out.push(payload);
            self.next = next_index(self.next);
            proof {
                assert(out.deep_view() =~~= seq![p0]);
                lemma_add_mod_steps(o.next, 0);
                lemma_add_mod_steps(o.next, 1);
            }
            loop
                invariant
                    self.next == spec_add_mod(o.next, out@.len() as nat),
                    self.next < INDEX_SPACE,
                    1 <= out@.len(),
                    out@.len() + self.pending@.len() == 1 + o.pending@.len(),
                    self.pending_distinct(),
                    delivered_from(o, out.deep_view(), p0),
                    forall|x: u32|
                        #![trigger pending_has(self.pending@, x)]
                        pending_has(self.pending@, x) ==> x < INDEX_SPACE && pending_has(
                            o.pending@,
                            x,
                        ) && pending_payload(self.pending@, x) == pending_payload(o.pending@, x)
                            && out@.len() <= spec_circ_diff(x, o.next) < 0x800000,
                    forall|x: u32|
                        #![trigger pending_has(o.pending@, x)]
                        pending_has(o.pending@, x) && x < INDEX_SPACE && out@.len()
                            <= spec_circ_diff(x, o.next) ==> pending_has(self.pending@, x),
                decreases self.pending@.len(),
            {
                let ghost m = out@.len() as nat;
                let ghost pre = self.pending@;
                let ghost pre_out = out.deep_view();
                let cur = self.next;
                proof {
                    lemma_add_mod_steps(o.next, m);
                }
                match self.take_pending(cur) {
                    Some(p) => {
                        let ghost pv = p@;
                        out.push(p);
                        self.next = next_index(self.next);
                        proof {
                            lemma_add_mod_steps(o.next, m + 1);
                            assert(out.deep_view() =~~= pre_out.push(pv));
                            assert(pending_has(o.pending@, cur) && pending_payload(pre, cur)
                                == pending_payload(o.pending@, cur));
                            assert(delivered_from(o, out.deep_view(), p0)) by {
                                assert forall|k: int|
                                    1 <= k < out@.len() implies pending_has(
                                    o.pending@,
                                    #[trigger] spec_add_mod(o.next, k as nat),
                                ) && out.deep_view()[k] == pending_payload(
                                    o.pending@,
                                    spec_add_mod(o.next, k as nat),
                                ) by {
                                    if k < m {
                                        assert(pre_out[k] == out.deep_view()[k]);
                                    } else {
                                        assert(spec_add_mod(o.next, k as nat) == cur);
                                    }
                                }
                            }
                            assert forall|x: u32|
                                #![trigger pending_has(self.pending@, x)]
                                pending_has(self.pending@, x) implies x < INDEX_SPACE
                                && pending_has(o.pending@, x) && pending_payload(self.pending@, x)
                                == pending_payload(o.pending@, x) && out@.len() <= spec_circ_diff(
                                x,
                                o.next,
                            ) < 0x800000 by {
                                assert(x != cur);
                                assert(pending_has(pre, x));
                                if spec_circ_diff(x, o.next) == m {
                                    lemma_diff_determines(o.next, x);
                                    assert(x == cur);
                                }
                            }
                            assert forall|x: u32|
                                #![trigger pending_has(o.pending@, x)]
                                pending_has(o.pending@, x) && x < INDEX_SPACE && out@.len()
                                    <= spec_circ_diff(x, o.next) implies pending_has(
                                self.pending@,
                                x,
                            ) by {
                                assert(pending_has(pre, x));
                                assert(x != cur) by {
                                    lemma_add_mod_steps(o.next, m);
                                }
                            }
                        }
                    },
                    None => {
                        break ;
                    },
                }
            }
            proof {
                let m = out@.len() as nat;
                lemma_add_mod_steps(o.next, m);
                assert(!pending_has(o.pending@, spec_add_mod(o.next, m))) by {
                    if pending_has(o.pending@, self.next) {
                        assert(pending_has(self.pending@, self.next));
                    }
                }
                assert(pending_kept(o, *self)) by {
                    assert forall|x: u32| x < INDEX_SPACE implies {
                        &&& (pending_has(self.pending@, x) <==> (pending_has(o.pending@, x)
                            && spec_newer(x, self.next)))
                        &&& (pending_has(self.pending@, x) ==> pending_payload(self.pending@, x)
                            == pending_payload(o.pending@, x))
                    } by {
                        lemma_diff_shift(x, o.next, m);
                        if pending_has(self.pending@, x) {
                            if spec_circ_diff(x, o.next) == m {
                                lemma_diff_determines(o.next, x);
                                assert(pending_has(self.pending@, self.next));
                                assert(false);
                            }
                        }
                        if pending_has(o.pending@, x) && spec_newer(x, self.next) {
                            if spec_circ_diff(x, o.next) < m {
                                assert(!spec_newer(x, self.next));
                            }
                        }
                    }
                }
                assert forall|i: int|
                    0 <= i < self.pending@.len() implies spec_newer(
                    (#[trigger] self.pending@[i].index),
                    self.next,
                ) by {
                    let x = self.pending@[i].index;
                    assert(pending_has(self.pending@, x));
                }
            }
        } else if newer_than(index, self.next) {
            match self.find_pending(index) {
                Some(_) => {},
                None => {
                    if self.pending.len() < MAX_PENDING {
                        let ghost pre = self.pending@;
                        let ghost pv = payload@;
                        self.pending.push(OrderedFrame { index, payload });
                        proof {
                            let cur = self.pending@;
                            let n = pre.len() as int;
                            assert(cur[n].index == index);
                            assert(pending_has(cur, index));
                            assert forall|x: u32| x != index implies (#[trigger] pending_has(
                                cur,
                                x,
                            )) == pending_has(pre, x) by {
                                if pending_has(cur, x) {
                                    let j = choose|j: int|
                                        0 <= j < cur.len() && cur[j].index == x;
                                    assert(j < n);
                                    assert(pre[j].index == x);
                                }
                                if pending_has(pre, x) {
                                    let j = choose|j: int|
                                        0 <= j < pre.len() && pre[j].index == x;
                                    assert(cur[j].index == x);
                                }
                            }
                            assert forall|x: u32|
                                x != index && pending_has(cur, x) implies (
                            #[trigger] pending_payload(cur, x)) == pending_payload(pre, x) by {
                                let j = choose|j: int| 0 <= j < cur.len() && cur[j].index == x;
                                assert(j < n);
                                assert(pre[j].index == x);
                                let jc = choose|jc: int| 0 <= jc < pre.len() && pre[jc].index == x;
                                assert(jc == j);
                            }
                            assert(pending_payload(cur, index) == pv) by {
                                let j = choose|j: int| 0 <= j < cur.len() && cur[j].index == index;
                                assert(j == n);
                            }
                        }
                    }
                },
            }
        }
        out
    }
}

} // verus!
