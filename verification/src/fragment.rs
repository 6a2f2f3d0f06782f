//! Fragmentation and reassembly. An oversized payload is split into ordered
//! chunks under a shared compound id; the receiver buffers chunks per id
//! until every index is present, then concatenates them in index order.
//! Incomplete sets past a staleness bound are purged, and the number of
//! concurrent partial sets is capped, so memory stays bounded.

use vstd::prelude::*;

verus! {

/// The most concurrent partial fragment sets kept; a new compound id beyond
/// this is dropped until older sets complete or are purged.
pub const MAX_FRAGMENT_SETS: usize = 256;

/// The most fragments one compound message may announce; a larger count is
/// rejected outright, bounding what one peer can make the assembler hold.
pub const MAX_FRAGMENT_COUNT: u32 = 512;

/// The chunks of `s` in order: full `chunk`-sized pieces, the remainder last.
pub open spec fn spec_chunks(s: Seq<u8>, chunk: int) -> Seq<Seq<u8>>
    recommends
        chunk >= 1,
    decreases s.len(),
{
    if s.len() == 0 || chunk < 1 {
        Seq::empty()
    } else if s.len() <= chunk {
        seq![s]
    } else {
        seq![s.take(chunk)] + spec_chunks(s.skip(chunk), chunk)
    }
}

/// The concatenation of `parts` in order.
pub open spec fn spec_concat(parts: Seq<Seq<u8>>) -> Seq<u8>
    decreases parts.len(),
{
    if parts.len() == 0 {
        Seq::empty()
    } else {
        parts[0] + spec_concat(parts.skip(1))
    }
}

/// Splitting and concatenating give the original payload back, whatever the
/// chunk size: reassembly in index order is byte-identical.
pub proof fn lemma_chunks_concat(s: Seq<u8>, chunk: int)
    requires
        chunk >= 1,
    ensures
        spec_concat(spec_chunks(s, chunk)) == s,
    decreases s.len(),
{
    if s.len() == 0 {
        assert(spec_concat(spec_chunks(s, chunk)) =~= s);
    } else if s.len() <= chunk {
        let parts = spec_chunks(s, chunk);
        assert(parts == seq![s]);
        assert(parts.skip(1) =~= Seq::<Seq<u8>>::empty());
        assert(spec_concat(parts.skip(1)) == Seq::<u8>::empty());
        assert(parts[0] == s);
        assert(s + Seq::<u8>::empty() =~= s);
    } else {
        lemma_chunks_concat(s.skip(chunk), chunk);
        let parts = spec_chunks(s, chunk);
        assert(parts.skip(1) =~= spec_chunks(s.skip(chunk), chunk));
        assert(spec_concat(parts) =~= s.take(chunk) + s.skip(chunk));
        assert(s.take(chunk) + s.skip(chunk) =~= s);
    }
}

/// Every chunk fits `chunk` bytes, and there are as few chunks as fit.
pub proof fn lemma_chunks_sizes(s: Seq<u8>, chunk: int)
    requires
        chunk >= 1,
    ensures
        forall|i: int|
            0 <= i < spec_chunks(s, chunk).len() ==> (#[trigger] spec_chunks(s, chunk)[i]).len()
                <= chunk,
        s.len() == 0 ==> spec_chunks(s, chunk).len() == 0,
        s.len() > 0 ==> (spec_chunks(s, chunk).len() - 1) * chunk < s.len() <= spec_chunks(
            s,
            chunk,
        ).len() * chunk,
    decreases s.len(),
{
    if s.len() == 0 {
    } else if s.len() <= chunk {
        let parts = spec_chunks(s, chunk);
        assert(parts.len() == 1);
        assert((parts.len() - 1) * chunk == 0);
        assert(parts.len() * chunk == chunk);
    } else {
        lemma_chunks_sizes(s.skip(chunk), chunk);
        let parts = spec_chunks(s, chunk);
        assert(parts.skip(1) =~= spec_chunks(s.skip(chunk), chunk));
        assert forall|i: int| 0 <= i < parts.len() implies (#[trigger] parts[i]).len()
            <= chunk by {
            if i >= 1 {
                assert(parts[i] == spec_chunks(s.skip(chunk), chunk)[i - 1]);
            }
        }
        let n = spec_chunks(s.skip(chunk), chunk).len();
        assert(parts.len() == n + 1);
        assert(s.skip(chunk).len() == s.len() - chunk);
        assert((n - 1) * chunk < s.len() - chunk <= n * chunk ==> n * chunk < s.len() <= (n + 1)
            * chunk) by (nonlinear_arith);
        assert((parts.len() - 1) * chunk == n * chunk);
        assert(parts.len() * chunk == (n + 1) * chunk);
    }
}

/// Splits `payload` into ordered chunks of at most `chunk` bytes.
#[verifier::loop_isolation(false)]
pub fn split_payload(payload: &Vec<u8>, chunk: usize) -> (r: Vec<Vec<u8>>)
    requires
        chunk >= 1,
    ensures
        r.deep_view() == spec_chunks(payload@, chunk as int),
{
    let mut r: Vec<Vec<u8>> = Vec::new();
    let mut at: usize = 0;
    proof {
        assert(payload@.skip(0) =~= payload@);
        assert(r.deep_view() =~= Seq::<Seq<u8>>::empty());
        assert(Seq::<Seq<u8>>::empty() + spec_chunks(payload@, chunk as int) =~= spec_chunks(
            payload@,
            chunk as int,
        ));
    }
    while at < payload.len()
        invariant
            at <= payload@.len(),
            spec_chunks(payload@, chunk as int) == r.deep_view() + spec_chunks(
                payload@.skip(at as int),
                chunk as int,
            ),
        decreases payload@.len() - at,
    {
        let end = if payload.len() - at > chunk {
            at + chunk
        } else {
            payload.len()
        };
        let part = crate::protocol::wire::read_bytes(payload, at, end);
        let ghost pre = r.deep_view();
        let ghost rest = payload@.skip(at as int);
        r.push(part);
        proof {
            assert(r.deep_view() =~~= pre.push(part@));
            if payload@.len() - at > chunk {
                assert(part@ =~= rest.take(chunk as int));
                assert(payload@.skip(end as int) =~= rest.skip(chunk as int));
                assert(spec_chunks(rest, chunk as int) =~= seq![rest.take(chunk as int)]
                    + spec_chunks(rest.skip(chunk as int), chunk as int));
                assert(pre.push(part@) + spec_chunks(payload@.skip(end as int), chunk as int)
                    =~= pre + spec_chunks(rest, chunk as int));
            } else {
                assert(part@ =~= rest);
                assert(spec_chunks(rest, chunk as int) =~= seq![rest]);
                assert(payload@.skip(end as int) =~= Seq::<u8>::empty());
                assert(pre.push(part@) + spec_chunks(payload@.skip(end as int), chunk as int)
                    =~= pre + spec_chunks(rest, chunk as int));
            }
        }
        at = end;
    }
    proof {
        assert(payload@.skip(at as int) =~= Seq::<u8>::empty());
        assert(r.deep_view() =~= r.deep_view() + spec_chunks(
            payload@.skip(at as int),
            chunk as int,
        ));
    }
    r
}

/// The mathematical content of a set's slots: one optional payload per
/// fragment index.
pub open spec fn slots_view(sl: Seq<Option<Vec<u8>>>) -> Seq<Option<Seq<u8>>> {
    Seq::new(
        sl.len(),
        |i: int|
            match sl[i] {
                Some(v) => Some(v@),
                None => None,
            },
    )
}

/// Every fragment index has arrived.
pub open spec fn slots_full(sv: Seq<Option<Seq<u8>>>) -> bool {
    forall|i: int| 0 <= i < sv.len() ==> (#[trigger] sv[i]) is Some
}

/// The reassembled message: the slot payloads concatenated in index order.
pub open spec fn spec_assemble(sv: Seq<Option<Seq<u8>>>) -> Seq<u8>
    decreases sv.len(),
{
    if sv.len() == 0 {
        Seq::empty()
    } else {
        (match sv[0] {
            Some(x) => x,
            None => Seq::empty(),
        }) + spec_assemble(sv.skip(1))
    }
}

/// Slots filled with the chunks of a split reassemble to their
/// concatenation: together with `lemma_chunks_concat`, a payload split into
/// fragments and reassembled is byte-identical, whatever the arrival order.
pub proof fn lemma_assemble_chunks(sv: Seq<Option<Seq<u8>>>, parts: Seq<Seq<u8>>)
    requires
        sv.len() == parts.len(),
        forall|i: int| 0 <= i < sv.len() ==> (#[trigger] sv[i]) == Some(parts[i]),
    ensures
        spec_assemble(sv) == spec_concat(parts),
    decreases sv.len(),
{
    if sv.len() > 0 {
        lemma_assemble_chunks(sv.skip(1), parts.skip(1));
        assert(sv[0] == Some(parts[0]));
    }
}

/// One partial compound message: the fragments received so far, by index.
pub struct FragmentSet {
    /// The compound id shared by all fragments of the message.
    pub id: u16,
    /// When the first fragment arrived (caller-supplied clock).
    pub created: u64,
    /// One slot per announced fragment index.
    pub slots: Vec<Option<Vec<u8>>>,
}

/// Whether a set with `id` exists in `ss`.
pub open spec fn fsets_has(ss: Seq<FragmentSet>, id: u16) -> bool {
    exists|i: int| 0 <= i < ss.len() && ss[i].id == id
}

/// The position of the set with `id` (meaningful under `fsets_has`).
pub open spec fn fsets_at(ss: Seq<FragmentSet>, id: u16) -> int {
    choose|i: int| 0 <= i < ss.len() && ss[i].id == id
}

/// The arrival stamp of the set with `id`.
pub open spec fn fset_created(ss: Seq<FragmentSet>, id: u16) -> u64 {
    ss[fsets_at(ss, id)].created
}

/// The slot contents of the set with `id`.
pub open spec fn fset_slots(ss: Seq<FragmentSet>, id: u16) -> Seq<Option<Seq<u8>>> {
    slots_view(ss[fsets_at(ss, id)].slots@)
}

/// How one fragment changes the assembler: `pre`/`post` are the fragment
/// sets before and after, `result` the completed message if any. A bad
/// count or index changes nothing; a fresh id opens a set (or completes at
/// once when the count is one, or is dropped at the set cap); a known id
/// fills its slot unless the count contradicts the set or the slot is
/// taken; the last slot completes the message and drops the set; all other
/// sets always stay untouched.
pub open spec fn insert_effect(
    pre: Seq<FragmentSet>,
    post: Seq<FragmentSet>,
    id: u16,
    count: u32,
    index: u32,
    data: Seq<u8>,
    now: u64,
    result: Option<Seq<u8>>,
) -> bool {
    &&& (count == 0 || count > MAX_FRAGMENT_COUNT || index >= count ==> result is None && post
        == pre)
    &&& (0 < count <= MAX_FRAGMENT_COUNT && index < count && !fsets_has(pre, id) ==> {
        if count == 1 {
            result == Some(data) && post == pre
        } else if pre.len() >= MAX_FRAGMENT_SETS {
            result is None && post == pre
        } else {
            &&& result is None
            &&& fsets_has(post, id)
            &&& fset_created(post, id) == now
            &&& fset_slots(post, id) == Seq::new(count as nat, |i: int| None::<Seq<u8>>).update(
                index as int,
                Some(data),
            )
            &&& post.len() == pre.len() + 1
            &&& forall|x: u16|
                x != id ==> (#[trigger] fsets_has(post, x)) == fsets_has(pre, x) && (fsets_has(
                    post,
                    x,
                ) ==> fset_created(post, x) == fset_created(pre, x) && fset_slots(post, x)
                    == fset_slots(pre, x))
        }
    })
    &&& (0 < count <= MAX_FRAGMENT_COUNT && index < count && fsets_has(pre, id) ==> {
        let sv = fset_slots(pre, id);
        if count as nat != sv.len() || sv[index as int] is Some {
            result is None && post == pre
        } else {
            let filled = sv.update(index as int, Some(data));
            if slots_full(filled) {
                &&& result == Some(spec_assemble(filled))
                &&& !fsets_has(post, id)
                &&& post.len() + 1 == pre.len()
                &&& forall|x: u16|
                    x != id ==> (#[trigger] fsets_has(post, x)) == fsets_has(pre, x) && (fsets_has(
                        post,
                        x,
                    ) ==> fset_created(post, x) == fset_created(pre, x) && fset_slots(post, x)
                        == fset_slots(pre, x))
            } else {
                &&& result is None
                &&& fsets_has(post, id)
                &&& fset_created(post, id) == fset_created(pre, id)
                &&& fset_slots(post, id) == filled
                &&& post.len() == pre.len()
                &&& forall|x: u16|
                    x != id ==> (#[trigger] fsets_has(post, x)) == fsets_has(pre, x) && (fsets_has(
                        post,
                        x,
                    ) ==> fset_created(post, x) == fset_created(pre, x) && fset_slots(post, x)
                        == fset_slots(pre, x))
            }
        }
    })
}

/// Buffers incoming fragments by compound id until every index of a message
/// is present, then hands the reassembled message out; partial sets are
/// purged once stale, and the number of sets and fragments is capped.
pub struct FragmentAssembler {
    pub sets: Vec<FragmentSet>,
}

impl FragmentAssembler {
    /// Ids are unique, every set is within the announced caps.
    pub open spec fn wf(&self) -> bool {
        &&& forall|i: int, j: int|
            0 <= i < j < self.sets@.len() ==> self.sets@[i].id != self.sets@[j].id
        &&& forall|i: int|
            0 <= i < self.sets@.len() ==> 1 <= (#[trigger] self.sets@[i].slots)@.len()
                <= MAX_FRAGMENT_COUNT
        &&& self.sets@.len() <= MAX_FRAGMENT_SETS
    }

    pub fn new() -> (r: Self)
        ensures
            r.wf(),
            r.sets@.len() == 0,
    {
        Self { sets: Vec::new() }
    }

    /// Finds the position of the set with `id`.
    fn find_set(&self, id: u16) -> (r: Option<usize>)
        ensures
            match r {
                Some(i) => i < self.sets@.len() && self.sets@[i as int].id == id,
                None => !fsets_has(self.sets@, id),
            },
    {
        let mut i: usize = 0;
        while i < self.sets.len()
            invariant
                i <= self.sets@.len(),
                forall|j: int| 0 <= j < i ==> self.sets@[j].id != id,
            decreases self.sets@.len() - i,
        {
            if self.sets[i].id == id {
                return Some(i);
            }
            i = i + 1;
        }
        None
    }

    /// Hands one fragment to the assembler. The first fragment of a fresh id
    /// opens a set stamped `now`; a fragment completing its set returns the
    /// message reassembled in index order and drops the set. A count of
    /// zero, a count over the cap, an index out of range, a count that
    /// contradicts the open set, or a duplicate index is dropped; a fresh id
    /// beyond the set cap is dropped too.
    #[verifier::loop_isolation(false)]
    #[verifier::rlimit(100)]
    pub fn insert(&mut self, id: u16, count: u32, index: u32, data: Vec<u8>, now: u64) -> (r:
        Option<Vec<u8>>)
        requires
            old(self).wf(),
        ensures
            final(self).wf(),
            insert_effect(
                old(self).sets@,
                final(self).sets@,
                id,
                count,
                index,
                data@,
                now,
                match r {
                    Some(p) => Some(p@),
                    None => None,
                },
            ),
            count == 0 || count > MAX_FRAGMENT_COUNT || index >= count ==> r is None && *final(self)
                == *old(self),
            0 < count <= MAX_FRAGMENT_COUNT && index < count && !fsets_has(old(self).sets@, id)
                ==> {
                if count == 1 {
                    r matches Some(p) && p@ == data@ && *final(self) == *old(self)
                } else if old(self).sets@.len() >= MAX_FRAGMENT_SETS {
                    r is None && *final(self) == *old(self)
                } else {
                    &&& r is None
                    &&& fsets_has(final(self).sets@, id)
                    &&& fset_created(final(self).sets@, id) == now
                    &&& fset_slots(final(self).sets@, id) == Seq::new(
                        count as nat,
                        |i: int| None::<Seq<u8>>,
                    ).update(index as int, Some(data@))
                    &&& final(self).sets@.len() == old(self).sets@.len() + 1
                    &&& forall|x: u16|
                        x != id ==> (#[trigger] fsets_has(final(self).sets@, x)) == fsets_has(
                            old(self).sets@,
                            x,
                        ) && (fsets_has(final(self).sets@, x) ==> fset_created(
                            final(self).sets@,
                            x,
                        ) == fset_created(old(self).sets@, x) && fset_slots(final(self).sets@, x)
                            == fset_slots(old(self).sets@, x))
                }
            },
            0 < count <= MAX_FRAGMENT_COUNT && index < count && fsets_has(old(self).sets@, id)
                ==> {
                let sv = fset_slots(old(self).sets@, id);
                if count as nat != sv.len() || sv[index as int] is Some {
                    r is None && *final(self) == *old(self)
                } else {
                    let filled = sv.update(index as int, Some(data@));
                    if slots_full(filled) {
                        &&& r matches Some(p) && p@ == spec_assemble(filled)
                        &&& !fsets_has(final(self).sets@, id)
                        &&& final(self).sets@.len() + 1 == old(self).sets@.len()
                        &&& forall|x: u16|
                            x != id ==> (#[trigger] fsets_has(final(self).sets@, x)) == fsets_has(
                                old(self).sets@,
                                x,
                            ) && (fsets_has(final(self).sets@, x) ==> fset_created(
                                final(self).sets@,
                                x,
                            ) == fset_created(old(self).sets@, x) && fset_slots(
                                final(self).sets@,
                                x,
                            ) == fset_slots(old(self).sets@, x))
                    } else {
                        &&& r is None
                        &&& fsets_has(final(self).sets@, id)
                        &&& fset_created(final(self).sets@, id) == fset_created(
                            old(self).sets@,
                            id,
                        )
                        &&& fset_slots(final(self).sets@, id) == filled
                        &&& final(self).sets@.len() == old(self).sets@.len()
                        &&& forall|x: u16|
                            x != id ==> (#[trigger] fsets_has(final(self).sets@, x)) == fsets_has(
                                old(self).sets@,
                                x,
                            ) && (fsets_has(final(self).sets@, x) ==> fset_created(
                                final(self).sets@,
                                x,
                            ) == fset_created(old(self).sets@, x) && fset_slots(
                                final(self).sets@,
                                x,
                            ) == fset_slots(old(self).sets@, x))
                    }
                }
            },
    {
        if count == 0 || count > MAX_FRAGMENT_COUNT || index >= count {
            return None;
        }
        match self.find_set(id) {
            None => {
                if count == 1 {
                    return Some(data);
                }
                if self.sets.len() >= MAX_FRAGMENT_SETS {
                    return None;
                }
                let mut slots: Vec<Option<Vec<u8>>> = Vec::new();
                let mut i: u32 = 0;
                while i < count
                    invariant
                        i <= count,
                        slots@.len() == i as nat,
                        forall|j: int| 0 <= j < i ==> (#[trigger] slots@[j]) is None,
                    decreases count - i,
                {
                    slots.push(None);
                    i = i + 1;
                }
                let ghost blank = slots_view(slots@);
                slots.remove(index as usize);
                slots.insert(index as usize, Some(data));
                proof {
                    assert(slots_view(slots@) =~~= Seq::new(
                        count as nat,
                        |i: int| None::<Seq<u8>>,
                    ).update(index as int, Some(data@)));
                }
                let ghost pre = self.sets@;
                self.sets.push(FragmentSet { id, created: now, slots });
                proof {
                    let cur = self.sets@;
                    let n = pre.len() as int;
                    assert(cur[n].id == id);
                    assert(fsets_has(cur, id));
                    assert(fsets_at(cur, id) == n);
                    assert forall|x: u16| x != id implies (#[trigger] fsets_has(cur, x))
                        == fsets_has(pre, x) by {
                        if fsets_has(cur, x) {
                            let j = fsets_at(cur, x);
                            assert(0 <= j < cur.len() && cur[j].id == x);
                            assert(j < n);
                            assert(pre[j].id == x);
                        }
                        if fsets_has(pre, x) {
                            let j = fsets_at(pre, x);
                            assert(0 <= j < pre.len() && pre[j].id == x);
                            assert(cur[j].id == x);
                        }
                    }
                    assert forall|x: u16|
                        x != id && fsets_has(cur, x) implies fset_created(cur, x) == fset_created(
                        pre,
                        x,
                    ) && fset_slots(cur, x) == fset_slots(pre, x) by {
                        let j = fsets_at(cur, x);
                        assert(0 <= j < cur.len() && cur[j].id == x);
                        assert(j < n);
                        assert(pre[j].id == x);
                        let jc = fsets_at(pre, x);
                        assert(pre[jc].id == x);
                        assert(jc == j);
                    }
                }
                None
            },
            Some(i) => {
                let ghost pre = self.sets@;
                let ghost sv = fset_slots(pre, id);
                proof {
                    assert(fsets_has(pre, id));
                    assert(fsets_at(pre, id) == i);
                }
                if self.sets[i].slots.len() != count as usize {
                    return None;
                }
                let slot_taken = match &self.sets[i].slots[index as usize] {
                    Some(_) => true,
                    None => false,
                };
                proof {
                    assert(sv[index as int] is Some <==> slot_taken);
                }
                if slot_taken {
                    return None;
                }
                let mut set = self.sets.remove(i);
                set.slots.remove(index as usize);
                set.slots.insert(index as usize, Some(data));
                proof {
                    assert(slots_view(set.slots@) =~~= sv.update(index as int, Some(data@)));
                }
                let ghost filled = slots_view(set.slots@);
                let mut all = true;
                let mut j: usize = 0;
                while j < set.slots.len()
                    invariant
                        j <= set.slots@.len(),
                        all ==> forall|k: int| 0 <= k < j ==> (#[trigger] filled[k]) is Some,
                        !all ==> exists|k: int| 0 <= k < j && !((#[trigger] filled[k]) is Some),
                    decreases set.slots@.len() - j,
                {
                    let here = match &set.slots[j] {
                        Some(_) => true,
                        None => false,
                    };
                    proof {
                        assert(here == (filled[j as int] is Some));
                    }
                    all = all && here;
                    j = j + 1;
                }
                proof {
                    assert(all == slots_full(filled)) by {
                        if !all {
                            let k = choose|k: int|
                                0 <= k < set.slots@.len() && !((#[trigger] filled[k]) is Some);
                            assert(!slots_full(filled));
                        }
                    }
                    assert forall|x: u16| x != id implies (#[trigger] fsets_has(self.sets@, x))
                        == fsets_has(pre, x) by {
                        let cur = self.sets@;
                        if fsets_has(cur, x) {
                            let j2 = fsets_at(cur, x);
                            assert(0 <= j2 < cur.len() && cur[j2].id == x);
                            if j2 < i {
                                assert(pre[j2].id == x);
                            } else {
                                assert(pre[j2 + 1].id == x);
                            }
                        }
                        if fsets_has(pre, x) {
                            let j2 = fsets_at(pre, x);
                            assert(0 <= j2 < pre.len() && pre[j2].id == x);
                            if j2 < i {
                                assert(cur[j2].id == x);
                            } else {
                                assert(cur[j2 - 1].id == x);
                            }
                        }
                    }
                    assert forall|x: u16|
                        x != id && fsets_has(self.sets@, x) implies fset_created(self.sets@, x)
                        == fset_created(pre, x) && fset_slots(self.sets@, x) == fset_slots(
                        pre,
                        x,
                    ) by {
                        let cur = self.sets@;
                        let j2 = fsets_at(cur, x);
                        assert(0 <= j2 < cur.len() && cur[j2].id == x);
                        let jo = if j2 < i {
                            j2
                        } else {
                            j2 + 1
                        };
                        assert(pre[jo].id == x);
                        let jc = fsets_at(pre, x);
                        assert(pre[jc].id == x);
                        assert(jc == jo);
                    }
                    assert(!fsets_has(self.sets@, id)) by {
                        if fsets_has(self.sets@, id) {
                            let cur = self.sets@;
                            let j2 = fsets_at(cur, id);
                            assert(0 <= j2 < cur.len() && cur[j2].id == id);
                            if j2 < i {
                                assert(pre[j2].id == id && pre[i as int].id == id);
                            } else {
                                assert(pre[j2 + 1].id == id && pre[i as int].id == id);
                            }
                        }
                    }
                }
                if all {
                    let mut msg: Vec<u8> = Vec::new();
                    let mut k: usize = 0;
                    proof {
                        assert(filled.skip(0) =~= filled);
                    }
                    while k < set.slots.len()
                        invariant
                            k <= set.slots@.len(),
                            slots_view(set.slots@) == filled,
                            slots_full(filled),
                            spec_assemble(filled) == msg@ + spec_assemble(filled.skip(k as int)),
                        decreases set.slots@.len() - k,
                    {
                        let ghost pre_msg = msg@;
                        match &set.slots[k] {
                            Some(d) => {
                                crate::protocol::wire::push_bytes(&mut msg, d);
                                proof {
                                    assert(filled[k as int] == Some(d@));
                                    assert(filled.skip(k as int).skip(1) =~= filled.skip(
                                        k as int + 1,
                                    ));
                                    assert(spec_assemble(filled.skip(k as int)) == d@
                                        + spec_assemble(filled.skip(k as int + 1)));
                                }
                            },
                            None => {
                                proof {
                                    assert(filled[k as int] is Some);
                                    assert(false);
                                }
                            },
                        }
                        k = k + 1;
                    }
                    proof {
                        assert(filled.skip(set.slots@.len() as int) =~= Seq::<
                            Option<Seq<u8>>,
                        >::empty());
                        assert(spec_assemble(filled) == msg@);
                    }
                    Some(msg)
                } else {
                    let ghost mid = self.sets@;
                    self.sets.insert(i, set);
                    proof {
                        let cur = self.sets@;
                        assert(cur[i as int].id == id);
                        assert(fsets_has(cur, id));
                        assert(fsets_at(cur, id) == i);
                        assert(fset_slots(cur, id) == filled);
                        assert(fset_created(cur, id) == fset_created(pre, id));
                        assert forall|x: u16| x != id implies (#[trigger] fsets_has(cur, x))
                            == fsets_has(mid, x) by {
                            if fsets_has(cur, x) {
                                let j2 = fsets_at(cur, x);
                            assert(0 <= j2 < cur.len() && cur[j2].id == x);
                                if j2 < i {
                                    assert(mid[j2].id == x);
                                } else {
                                    assert(mid[j2 - 1].id == x);
                                }
                            }
                            if fsets_has(mid, x) {
                                let j2 = fsets_at(mid, x);
                                assert(0 <= j2 < mid.len() && mid[j2].id == x);
                                if j2 < i {
                                    assert(cur[j2].id == x);
                                } else {
                                    assert(cur[j2 + 1].id == x);
                                }
                            }
                        }
                        assert forall|x: u16|
                            x != id && fsets_has(cur, x) implies fset_created(cur, x)
                            == fset_created(mid, x) && fset_slots(cur, x) == fset_slots(
                            mid,
                            x,
                        ) by {
                            let j2 = fsets_at(cur, x);
                            assert(0 <= j2 < cur.len() && cur[j2].id == x);
                            let jo = if j2 < i {
                                j2
                            } else {
                                j2 - 1
                            };
                            assert(mid[jo].id == x);
                            let jc = fsets_at(mid, x);
                            assert(mid[jc].id == x);
                            assert(jc == jo);
                        }
                    }
                    None
                }
            },
        }
    }

    /// Drops every partial set whose first fragment arrived more than
    /// `max_age` ago; every younger set stays untouched. Memory spent on
    /// abandoned compounds is thereby reclaimed.
    #[verifier::loop_isolation(false)]
    pub fn purge_stale(&mut self, now: u64, max_age: u64)
        requires
            old(self).wf(),
        ensures
            final(self).wf(),
            final(self).sets@.len() <= old(self).sets@.len(),
            forall|x: u16|
                #![trigger fsets_has(final(self).sets@, x)]
                #![trigger fsets_has(old(self).sets@, x)]
                {
                    &&& (fsets_has(final(self).sets@, x) <==> fsets_has(old(self).sets@, x)
                        && fset_created(old(self).sets@, x) + max_age >= now)
                    &&& (fsets_has(final(self).sets@, x) ==> fset_created(final(self).sets@, x)
                        == fset_created(old(self).sets@, x) && fset_slots(final(self).sets@, x)
                        == fset_slots(old(self).sets@, x))
                },
    {
        let ghost o = self.sets@;
        let mut kept: Vec<FragmentSet> = Vec::new();
        let ghost mut k: int = 0;
        let mut guard: usize = 0;
        while self.sets.len() > 0
            invariant
                0 <= k <= o.len(),
                guard == k,
                self.sets@ == o.skip(k),
                kept@.len() <= k,
                forall|i2: int, j2: int| 0 <= i2 < j2 < kept@.len() ==> kept@[i2].id != kept@[j2].id,
                forall|i2: int|
                    0 <= i2 < kept@.len() ==> 1 <= (#[trigger] kept@[i2].slots)@.len()
                        <= MAX_FRAGMENT_COUNT,
                forall|x: u16|
                    #![trigger fsets_has(kept@, x)]
                    #![trigger fsets_has(o.take(k), x)]
                    {
                        &&& (fsets_has(kept@, x) <==> fsets_has(o.take(k), x) && fset_created(
                            o,
                            x,
                        ) + max_age >= now)
                        &&& (fsets_has(kept@, x) ==> fset_created(kept@, x) == fset_created(o, x)
                            && fset_slots(kept@, x) == fset_slots(o, x))
                    },
            decreases self.sets@.len(),
        {
            let ghost pre_kept = kept@;
            let e = self.sets.remove(0);
            proof {
                assert(e == o[k]);
                assert(self.sets@ =~= o.skip(k + 1));
                assert(o.take(k + 1) =~= o.take(k).push(o[k]));
                assert(fsets_has(o, e.id)) by {
                    assert(o[k].id == e.id);
                }
                assert(fsets_at(o, e.id) == k) by {
                    let j2 = fsets_at(o, e.id);
                    assert(o[j2].id == e.id);
                    if j2 != k {
                        assert(o[j2].id != o[k].id);
                    }
                }
                assert(!fsets_has(pre_kept, e.id)) by {
                    if fsets_has(pre_kept, e.id) {
                        assert(fsets_has(o.take(k), e.id));
                        let j2 = fsets_at(o.take(k), e.id);
                        assert(0 <= j2 < o.take(k).len() && o.take(k)[j2].id == e.id);
                        assert(o[j2].id == e.id && o[k].id == e.id && j2 < k);
                    }
                }
            }
            let fresh = if max_age > u64::MAX - e.created {
                true
            } else {
                e.created + max_age >= now
            };
            if fresh {
                kept.push(e);
            }
            proof {
                let kt = kept@;
                assert forall|x: u16|
                    #![trigger fsets_has(kt, x)]
                    #![trigger fsets_has(o.take(k + 1), x)]
                    {
                        &&& (fsets_has(kt, x) <==> fsets_has(o.take(k + 1), x) && fset_created(
                            o,
                            x,
                        ) + max_age >= now)
                        &&& (fsets_has(kt, x) ==> fset_created(kt, x) == fset_created(o, x)
                            && fset_slots(kt, x) == fset_slots(o, x))
                    } by {
                    if x == e.id {
                        assert(fsets_has(o.take(k + 1), x)) by {
                            assert(o.take(k + 1)[k].id == x);
                        }
                        if fresh {
                            assert(kt[pre_kept.len() as int].id == x);
                            assert(fsets_has(kt, x));
                            assert(fsets_at(kt, x) == pre_kept.len()) by {
                                let j2 = fsets_at(kt, x);
                                assert(kt[j2].id == x);
                                if j2 < pre_kept.len() {
                                    assert(fsets_has(pre_kept, x));
                                }
                            }
                            assert(fset_created(o, x) == e.created && fset_slots(o, x)
                                == slots_view(e.slots@));
                        } else {
                            assert(!fsets_has(kt, x));
                        }
                    } else {
                        assert(fsets_has(o.take(k + 1), x) == fsets_has(o.take(k), x)) by {
                            if fsets_has(o.take(k + 1), x) {
                                let j2 = fsets_at(o.take(k + 1), x);
                                assert(0 <= j2 < o.take(k + 1).len() && o.take(k + 1)[j2].id == x);
                                assert(j2 != k);
                                assert(o.take(k)[j2].id == x);
                            }
                            if fsets_has(o.take(k), x) {
                                let j2 = fsets_at(o.take(k), x);
                                assert(0 <= j2 < o.take(k).len() && o.take(k)[j2].id == x);
                                assert(o.take(k + 1)[j2].id == x);
                            }
                        }
                        assert(fsets_has(kt, x) == fsets_has(pre_kept, x)) by {
                            if fsets_has(kt, x) {
                                let j2 = fsets_at(kt, x);
                                assert(0 <= j2 < kt.len() && kt[j2].id == x);
                                assert(j2 < pre_kept.len());
                                assert(pre_kept[j2].id == x);
                            }
                            if fsets_has(pre_kept, x) {
                                let j2 = fsets_at(pre_kept, x);
                                assert(0 <= j2 < pre_kept.len() && pre_kept[j2].id == x);
                                assert(kt[j2].id == x);
                            }
                        }
                        if fsets_has(kt, x) {
                            let j2 = fsets_at(kt, x);
                            assert(kt[j2].id == x);
                            assert(j2 < pre_kept.len());
                            assert(pre_kept[j2].id == x);
                            let jc = fsets_at(pre_kept, x);
                            assert(pre_kept[jc].id == x);
                            assert(jc == j2);
                        }
                    }
                }
                k = k + 1;
            }
            guard = guard + 1;
        }
        proof {
            assert(o.take(k) =~= o);
        }
        self.sets = kept;
    }
}

} // verus!
