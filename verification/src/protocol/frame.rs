//! Frames and datagrams. A frame is one reliability-tagged unit of
//! application data: its header carries the reliability class, optional
//! reliable / sequence / order indices, and optional split metadata for
//! fragments. A datagram is the UDP payload: a data datagram packs a 24-bit
//! sequence number and one or more frames; ACK and NACK datagrams carry
//! ranges of datagram sequence numbers.

use vstd::prelude::*;

use crate::protocol::wire::{
    lemma_u16_be_round_trip, lemma_u24_le_round_trip, lemma_u32_be_round_trip, push_bytes,
    push_u16_be, push_u24_le, push_u32_be, read_bytes, read_u16_be, read_u24_le, read_u32_be,
    spec_u16_be, spec_u16_from_be, spec_u24_le, spec_u24_from_le, spec_u32_be, spec_u32_from_be,
};
use crate::error::RakNetError;

verus! {

/// The delivery guarantee a frame asks for.
#[derive(Debug, Clone, Copy, PartialEq, Eq, Structural)]
pub enum Reliability {
    /// Fire and forget.
    Unreliable,
    /// Unacknowledged, newest wins per channel.
    UnreliableSequenced,
    /// Acknowledged, delivered in arrival order.
    Reliable,
    /// Acknowledged, delivered in send order per channel.
    ReliableOrdered,
    /// Acknowledged, newest wins per channel.
    ReliableSequenced,
}

impl Reliability {
    /// The frame carries a reliable index and is retried until acknowledged.
    pub open spec fn spec_is_reliable(self) -> bool {
        match self {
            Reliability::Reliable | Reliability::ReliableOrdered
                | Reliability::ReliableSequenced => true,
            _ => false,
        }
    }

    /// The frame carries a sequence index; stale arrivals are dropped.
    pub open spec fn spec_is_sequenced(self) -> bool {
        match self {
            Reliability::UnreliableSequenced | Reliability::ReliableSequenced => true,
            _ => false,
        }
    }

    /// The frame carries an order index and channel (sequenced frames ride
    /// an order channel too).
    pub open spec fn spec_is_ordered(self) -> bool {
        match self {
            Reliability::UnreliableSequenced | Reliability::ReliableOrdered
                | Reliability::ReliableSequenced => true,
            _ => false,
        }
    }

    #[verifier::when_used_as_spec(spec_is_reliable)]
    pub fn is_reliable(self) -> (r: bool)
        ensures
            r == self.spec_is_reliable(),
    {
        match self {
            Reliability::Reliable | Reliability::ReliableOrdered
                | Reliability::ReliableSequenced => true,
            _ => false,
        }
    }

    #[verifier::when_used_as_spec(spec_is_sequenced)]
    pub fn is_sequenced(self) -> (r: bool)
        ensures
            r == self.spec_is_sequenced(),
    {
        match self {
            Reliability::UnreliableSequenced | Reliability::ReliableSequenced => true,
            _ => false,
        }
    }

    #[verifier::when_used_as_spec(spec_is_ordered)]
    pub fn is_ordered(self) -> (r: bool)
        ensures
            r == self.spec_is_ordered(),
    {
        match self {
            Reliability::UnreliableSequenced | Reliability::ReliableOrdered
                | Reliability::ReliableSequenced => true,
            _ => false,
        }
    }
}

/// The 3-bit wire tag of a reliability class.
pub open spec fn spec_rel_tag(r: Reliability) -> u8 {
    match r {
        Reliability::Unreliable => 0,
        Reliability::UnreliableSequenced => 1,
        Reliability::Reliable => 2,
        Reliability::ReliableOrdered => 3,
        Reliability::ReliableSequenced => 4,
    }
}

/// The reliability class of a 3-bit wire tag.
pub open spec fn spec_tag_rel(t: u8) -> Option<Reliability> {
    if t == 0 {
        Some(Reliability::Unreliable)
    } else if t == 1 {
        Some(Reliability::UnreliableSequenced)
    } else if t == 2 {
        Some(Reliability::Reliable)
    } else if t == 3 {
        Some(Reliability::ReliableOrdered)
    } else if t == 4 {
        Some(Reliability::ReliableSequenced)
    } else {
        None
    }
}

/// Order metadata of an ordered or sequenced frame.
#[derive(Debug, Clone, Copy, PartialEq, Eq, Structural)]
pub struct OrderInfo {
    /// The order index within the channel.
    pub index: u32,
    /// The independent ordering lane.
    pub channel: u8,
}

/// Split metadata of a fragment of an oversized message.
#[derive(Debug, Clone, Copy, PartialEq, Eq, Structural)]
pub struct SplitInfo {
    /// The compound id shared by all fragments of one message.
    pub id: u16,
    /// How many fragments the message was split into.
    pub count: u32,
    /// This fragment's position.
    pub index: u32,
}

/// One reliability-tagged unit of application data inside a datagram.
#[derive(Debug, Clone, PartialEq)]
pub struct Frame {
    pub reliability: Reliability,
    /// Present exactly when the class is reliable.
    pub reliable_index: Option<u32>,
    /// Present exactly when the class is sequenced.
    pub sequence_index: Option<u32>,
    /// Present exactly when the class is ordered or sequenced.
    pub order: Option<OrderInfo>,
    /// Present exactly when the payload is one fragment of a larger message.
    pub split: Option<SplitInfo>,
    pub payload: Vec<u8>,
}

/// The mathematical content of a frame.
pub struct FrameView {
    pub reliability: Reliability,
    pub reliable_index: Option<u32>,
    pub sequence_index: Option<u32>,
    pub order: Option<OrderInfo>,
    pub split: Option<SplitInfo>,
    pub payload: Seq<u8>,
}

impl View for Frame {
    type V = FrameView;

    open spec fn view(&self) -> FrameView {
        FrameView {
            reliability: self.reliability,
            reliable_index: self.reliable_index,
            sequence_index: self.sequence_index,
            order: self.order,
            split: self.split,
            payload: self.payload@,
        }
    }
}

/// Well-formedness: each optional header field is present exactly when the
/// reliability class calls for it, indices fit their 24-bit wire fields,
/// and the payload fits its 16-bit length field.
pub open spec fn frame_wf(f: FrameView) -> bool {
    &&& (f.reliable_index is Some <==> f.reliability.spec_is_reliable())
    &&& (f.sequence_index is Some <==> f.reliability.spec_is_sequenced())
    &&& (f.order is Some <==> f.reliability.spec_is_ordered())
    &&& (f.reliable_index matches Some(x) ==> x < 0x1000000)
    &&& (f.sequence_index matches Some(x) ==> x < 0x1000000)
    &&& (f.order matches Some(oi) ==> oi.index < 0x1000000)
    &&& f.payload.len() <= 0xffff
}

/// The flags byte: the reliability tag in the top three bits, the split bit
/// below them, the rest zero.
pub open spec fn spec_frame_flags(f: FrameView) -> u8 {
    ((spec_rel_tag(f.reliability) as u8) << 5 | (if f.split is Some {
        0x10u8
    } else {
        0u8
    })) as u8
}

/// The exact bytes of a frame: flags, payload length, then the optional
/// indices, the optional split header, and the payload.
pub open spec fn spec_encode_frame(f: FrameView) -> Seq<u8> {
    seq![spec_frame_flags(f)] + spec_u16_be(f.payload.len() as u16) + (match f.reliable_index {
        Some(x) => spec_u24_le(x),
        None => Seq::empty(),
    }) + (match f.sequence_index {
        Some(x) => spec_u24_le(x),
        None => Seq::empty(),
    }) + (match f.order {
        Some(oi) => spec_u24_le(oi.index) + seq![oi.channel],
        None => Seq::empty(),
    }) + (match f.split {
        Some(si) => spec_u16_be(si.id) + spec_u32_be(si.count) + spec_u32_be(si.index),
        None => Seq::empty(),
    }) + f.payload
}

/// Decoding of one frame at `pos`: the frame and the position after it.
pub open spec fn spec_decode_frame(b: Seq<u8>, pos: int) -> Option<(FrameView, int)> {
    if pos + 3 > b.len() {
        None
    } else {
        let flags = b[pos];
        if flags & 0x0f != 0 {
            None
        } else {
            match spec_tag_rel(flags >> 5) {
                None => None,
                Some(rel) => {
                    let has_split = flags & 0x10 == 0x10;
                    let len = spec_u16_from_be(b.subrange(pos + 1, pos + 3)) as int;
                    let off_rel = pos + 3;
                    let off_seq = off_rel + if rel.spec_is_reliable() {
                        3int
                    } else {
                        0int
                    };
                    let off_ord = off_seq + if rel.spec_is_sequenced() {
                        3int
                    } else {
                        0int
                    };
                    let off_split = off_ord + if rel.spec_is_ordered() {
                        4int
                    } else {
                        0int
                    };
                    let off_payload = off_split + if has_split {
                        10int
                    } else {
                        0int
                    };
                    let end = off_payload + len;
                    if end > b.len() {
                        None
                    } else {
                        Some(
                            (
                                FrameView {
                                    reliability: rel,
                                    reliable_index: if rel.spec_is_reliable() {
                                        Some(spec_u24_from_le(b.subrange(off_rel, off_rel + 3)))
                                    } else {
                                        None
                                    },
                                    sequence_index: if rel.spec_is_sequenced() {
                                        Some(spec_u24_from_le(b.subrange(off_seq, off_seq + 3)))
                                    } else {
                                        None
                                    },
                                    order: if rel.spec_is_ordered() {
                                        Some(
                                            OrderInfo {
                                                index: spec_u24_from_le(
                                                    b.subrange(off_ord, off_ord + 3),
                                                ),
                                                channel: b[off_ord + 3],
                                            },
                                        )
                                    } else {
                                        None
                                    },
                                    split: if has_split {
                                        Some(
                                            SplitInfo {
                                                id: spec_u16_from_be(
                                                    b.subrange(off_split, off_split + 2),
                                                ),
                                                count: spec_u32_from_be(
                                                    b.subrange(off_split + 2, off_split + 6),
                                                ),
                                                index: spec_u32_from_be(
                                                    b.subrange(off_split + 6, off_split + 10),
                                                ),
                                            },
                                        )
                                    } else {
                                        None
                                    },
                                    payload: b.subrange(off_payload, end),
                                },
                                end,
                            ),
                        )
                    }
                },
            }
        }
    }
}

proof fn lemma_concat_tail(u: Seq<u8>, v: Seq<u8>)
    ensures
        (u + v).subrange(u.len() as int, (u + v).len() as int) == v,
{
    assert((u + v).subrange(u.len() as int, (u + v).len() as int) =~= v);
}

proof fn lemma_concat_head_slice(u: Seq<u8>, v: Seq<u8>, a: int, c: int)
    requires
        0 <= a <= c <= u.len(),
    ensures
        (u + v).subrange(a, c) == u.subrange(a, c),
{
    assert((u + v).subrange(a, c) =~= u.subrange(a, c));
}

proof fn lemma_flags_round_trip(f: FrameView)
    ensures
        spec_frame_flags(f) & 0x0f == 0,
        spec_frame_flags(f) >> 5 == spec_rel_tag(f.reliability),
        (spec_frame_flags(f) & 0x10 == 0x10) == (f.split is Some),
{
    let t = spec_rel_tag(f.reliability);
    let s: u8 = if f.split is Some {
        0x10u8
    } else {
        0u8
    };
    assert(t <= 4);
    assert((((t << 5) | s) as u8) & 0x0f == 0 && (((t << 5) | s) as u8) >> 5 == t && ((((t << 5)
        | s) as u8) & 0x10 == 0x10) == (s == 0x10)) by (bit_vector)
        requires
            t <= 4,
            s == 0x10 || s == 0,
    ;
}

/// A frame decodes back from anywhere its exact bytes stand in a larger
/// buffer, which is what decoding a packed datagram needs.
#[verifier::rlimit(100)]
#[verifier::spinoff_prover]
pub proof fn lemma_frame_round_trip_at(f: FrameView, b: Seq<u8>, pos: int)
    requires
        frame_wf(f),
        0 <= pos,
        pos + spec_encode_frame(f).len() <= b.len(),
        b.subrange(pos, pos + spec_encode_frame(f).len()) == spec_encode_frame(f),
    ensures
        spec_decode_frame(b, pos) == Some((f, pos + spec_encode_frame(f).len())),
{
    let e = spec_encode_frame(f);
    let n = e.len() as int;
    lemma_flags_round_trip(f);
    lemma_u16_be_round_trip(f.payload.len() as u16);
    let e_rel = match f.reliable_index {
        Some(x) => spec_u24_le(x),
        None => Seq::<u8>::empty(),
    };
    let e_seq = match f.sequence_index {
        Some(x) => spec_u24_le(x),
        None => Seq::<u8>::empty(),
    };
    let e_ord = match f.order {
        Some(oi) => spec_u24_le(oi.index) + seq![oi.channel],
        None => Seq::<u8>::empty(),
    };
    let e_split = match f.split {
        Some(si) => spec_u16_be(si.id) + spec_u32_be(si.count) + spec_u32_be(si.index),
        None => Seq::<u8>::empty(),
    };
    if f.reliable_index is Some {
        lemma_u24_le_round_trip(f.reliable_index->0);
    }
    if f.sequence_index is Some {
        lemma_u24_le_round_trip(f.sequence_index->0);
    }
    if f.order is Some {
        lemma_u24_le_round_trip(f.order->0.index);
    }
    if f.split is Some {
        lemma_u16_be_round_trip(f.split->0.id);
        lemma_u32_be_round_trip(f.split->0.count);
        lemma_u32_be_round_trip(f.split->0.index);
    }
    let rel_len: int = if f.reliability.spec_is_reliable() {
        3
    } else {
        0
    };
    let seq_len: int = if f.reliability.spec_is_sequenced() {
        3
    } else {
        0
    };
    let ord_len: int = if f.reliability.spec_is_ordered() {
        4
    } else {
        0
    };
    let split_len: int = if f.split is Some {
        10
    } else {
        0
    };
    assert(e_rel.len() == rel_len && e_seq.len() == seq_len && e_ord.len() == ord_len
        && e_split.len() == split_len);
    let a1 = seq![spec_frame_flags(f)] + spec_u16_be(f.payload.len() as u16);
    let a2 = a1 + e_rel;
    let a3 = a2 + e_seq;
    let a4 = a3 + e_ord;
    let a5 = a4 + e_split;
    assert(e == a5 + f.payload);
    assert(a1.len() == 3 && a2.len() == 3 + rel_len && a3.len() == 3 + rel_len + seq_len
        && a4.len() == 3 + rel_len + seq_len + ord_len && a5.len() == 3 + rel_len + seq_len
        + ord_len + split_len);
    assert(n == a5.len() + f.payload.len());
    // slice e into its fields, walking the concatenation inside out
    lemma_concat_tail(a5, f.payload);
    lemma_concat_tail(a4, e_split);
    lemma_concat_tail(a3, e_ord);
    lemma_concat_tail(a2, e_seq);
    lemma_concat_tail(a1, e_rel);
    assert(e.subrange(a5.len() as int, n) == f.payload);
    lemma_concat_head_slice(a5, f.payload, a4.len() as int, a5.len() as int);
    assert(e.subrange(a4.len() as int, a5.len() as int) == e_split);
    lemma_concat_head_slice(a5, f.payload, a3.len() as int, a4.len() as int);
    lemma_concat_head_slice(a4, e_split, a3.len() as int, a4.len() as int);
    assert(e.subrange(a3.len() as int, a4.len() as int) == e_ord);
    lemma_concat_head_slice(a5, f.payload, a2.len() as int, a3.len() as int);
    lemma_concat_head_slice(a4, e_split, a2.len() as int, a3.len() as int);
    lemma_concat_head_slice(a3, e_ord, a2.len() as int, a3.len() as int);
    assert(e.subrange(a2.len() as int, a3.len() as int) == e_seq);
    lemma_concat_head_slice(a5, f.payload, a1.len() as int, a2.len() as int);
    lemma_concat_head_slice(a4, e_split, a1.len() as int, a2.len() as int);
    lemma_concat_head_slice(a3, e_ord, a1.len() as int, a2.len() as int);
    lemma_concat_head_slice(a2, e_seq, a1.len() as int, a2.len() as int);
    assert(e.subrange(a1.len() as int, a2.len() as int) == e_rel);
    lemma_concat_head_slice(a5, f.payload, 0, 3);
    lemma_concat_head_slice(a4, e_split, 0, 3);
    lemma_concat_head_slice(a3, e_ord, 0, 3);
    lemma_concat_head_slice(a2, e_seq, 0, 3);
    assert(e.subrange(0, 3) == a1.subrange(0, 3));
    assert(a1.subrange(0, 3) =~= a1);
    assert(e[0] == a1[0]) by {
        assert(e.subrange(0, 3)[0] == e[0]);
    }
    assert(a1[0] == spec_frame_flags(f));
    assert(a1.subrange(1, 3) =~= spec_u16_be(f.payload.len() as u16));
    // carry the field slices from e over to b
    assert(forall|i: int| 0 <= i < n ==> b[pos + i] == e[i]) by {
        let w = b.subrange(pos, pos + n);
        assert(w == e);
        assert forall|i: int| 0 <= i < n implies b[pos + i] == e[i] by {
            assert(w[i] == b[pos + i]);
            assert(w[i] == e[i]);
        }
    }
    assert(b[pos] == e[0]);
    let off_rel = pos + 3;
    let off_seq = off_rel + rel_len;
    let off_ord = off_seq + seq_len;
    let off_split = off_ord + ord_len;
    let off_payload = off_split + split_len;
    assert(b.subrange(pos + 1, pos + 3) =~= a1.subrange(1, 3)) by {
        assert(forall|i: int|
            #![trigger b.subrange(pos + 1, pos + 3)[i]]
            0 <= i < 2 ==> b.subrange(pos + 1, pos + 3)[i] == b[pos + 1 + i] && e.subrange(0, 3)[1
                + i] == e[1 + i]);
        assert(forall|i: int|
            #![trigger a1.subrange(1, 3)[i]]
            0 <= i < 2 ==> a1.subrange(0, 3)[1 + i] == a1.subrange(1, 3)[i]);
    }
    assert(b.subrange(off_rel, off_rel + rel_len) =~= e_rel) by {
        assert(forall|i: int|
            #![trigger b.subrange(off_rel, off_rel + rel_len)[i]]
            0 <= i < rel_len ==> b.subrange(off_rel, off_rel + rel_len)[i] == b[off_rel + i]
                && e.subrange(a1.len() as int, a2.len() as int)[i] == e[3 + i]);
    }
    assert(b.subrange(off_seq, off_seq + seq_len) =~= e_seq) by {
        assert(forall|i: int|
            #![trigger b.subrange(off_seq, off_seq + seq_len)[i]]
            0 <= i < seq_len ==> b.subrange(off_seq, off_seq + seq_len)[i] == b[off_seq + i]
                && e.subrange(a2.len() as int, a3.len() as int)[i] == e[3 + rel_len + i]);
    }
    assert(b.subrange(off_ord, off_ord + ord_len) =~= e_ord) by {
        assert(forall|i: int|
            #![trigger b.subrange(off_ord, off_ord + ord_len)[i]]
            0 <= i < ord_len ==> b.subrange(off_ord, off_ord + ord_len)[i] == b[off_ord + i]
                && e.subrange(a3.len() as int, a4.len() as int)[i] == e[3 + rel_len + seq_len
                + i]);
    }
    assert(b.subrange(off_split, off_split + split_len) =~= e_split) by {
        assert(forall|i: int|
            #![trigger b.subrange(off_split, off_split + split_len)[i]]
            0 <= i < split_len ==> b.subrange(off_split, off_split + split_len)[i] == b[off_split
                + i] && e.subrange(a4.len() as int, a5.len() as int)[i] == e[3 + rel_len + seq_len
                + ord_len + i]);
    }
    assert(b.subrange(off_payload, pos + n) =~= f.payload) by {
        assert(forall|i: int|
            #![trigger b.subrange(off_payload, pos + n)[i]]
            0 <= i < f.payload.len() ==> b.subrange(off_payload, pos + n)[i] == b[off_payload + i]
                && e.subrange(a5.len() as int, n)[i] == e[3 + rel_len + seq_len + ord_len
                + split_len + i]);
    }
    if f.reliability.spec_is_reliable() {
        assert(b.subrange(off_rel, off_rel + 3) == spec_u24_le(f.reliable_index->0));
    }
    if f.reliability.spec_is_sequenced() {
        assert(b.subrange(off_seq, off_seq + 3) == spec_u24_le(f.sequence_index->0));
    }
    if f.reliability.spec_is_ordered() {
        lemma_concat_tail(spec_u24_le(f.order->0.index), seq![f.order->0.channel]);
        lemma_concat_head_slice(
            spec_u24_le(f.order->0.index),
            seq![f.order->0.channel],
            0,
            3,
        );
        assert(e_ord.subrange(0, 3) =~= spec_u24_le(f.order->0.index));
        assert(b.subrange(off_ord, off_ord + 3) =~= e_ord.subrange(0, 3)) by {
            assert(forall|i: int|
                #![trigger b.subrange(off_ord, off_ord + 3)[i]]
                0 <= i < 3 ==> b.subrange(off_ord, off_ord + 3)[i] == b[off_ord + i]
                    && b.subrange(off_ord, off_ord + ord_len)[i] == b[off_ord + i]);
        }
        assert(b[off_ord + 3] == e_ord[3]) by {
            assert(b.subrange(off_ord, off_ord + ord_len)[3] == b[off_ord + 3]);
        }
        assert(e_ord[3] == f.order->0.channel);
    }
    if f.split is Some {
        let s_id = spec_u16_be(f.split->0.id);
        let s_count = spec_u32_be(f.split->0.count);
        let s_index = spec_u32_be(f.split->0.index);
        assert(e_split == (s_id + s_count) + s_index);
        lemma_concat_tail(s_id + s_count, s_index);
        lemma_concat_head_slice(s_id + s_count, s_index, 0, 2);
        lemma_concat_head_slice(s_id, s_count, 0, 2);
        lemma_concat_head_slice(s_id + s_count, s_index, 2, 6);
        lemma_concat_tail(s_id, s_count);
        assert(s_id.subrange(0, 2) =~= s_id);
        assert(e_split.subrange(0, 2) == s_id);
        assert(e_split.subrange(2, 6) == s_count);
        assert(e_split.subrange(6, 10) == s_index);
        assert(b.subrange(off_split, off_split + 2) =~= e_split.subrange(0, 2)) by {
            assert(forall|i: int|
                #![trigger b.subrange(off_split, off_split + 2)[i]]
                0 <= i < 2 ==> b.subrange(off_split, off_split + 2)[i] == b[off_split + i]
                    && b.subrange(off_split, off_split + split_len)[i] == b[off_split + i]);
        }
        assert(b.subrange(off_split + 2, off_split + 6) =~= e_split.subrange(2, 6)) by {
            assert(forall|i: int|
                #![trigger b.subrange(off_split + 2, off_split + 6)[i]]
                0 <= i < 4 ==> b.subrange(off_split + 2, off_split + 6)[i] == b[off_split + 2 + i]
                    && b.subrange(off_split, off_split + split_len)[2 + i] == b[off_split + 2
                    + i]);
        }
        assert(b.subrange(off_split + 6, off_split + 10) =~= e_split.subrange(6, 10)) by {
            assert(forall|i: int|
                #![trigger b.subrange(off_split + 6, off_split + 10)[i]]
                0 <= i < 4 ==> b.subrange(off_split + 6, off_split + 10)[i] == b[off_split + 6
                    + i] && b.subrange(off_split, off_split + split_len)[6 + i] == b[off_split + 6
                    + i]);
        }
    }
    let decoded = (spec_decode_frame(b, pos)->0).0;
    assert(decoded.reliability == f.reliability);
    assert(decoded.reliable_index == f.reliable_index);
    assert(decoded.sequence_index == f.sequence_index);
    assert(decoded.order == f.order);
    assert(decoded.split == f.split);
    assert(decoded.payload == f.payload);
}

impl Frame {
    /// Appends the exact wire bytes of the frame to `out`.
    pub fn encode_into(&self, out: &mut Vec<u8>)
        requires
            frame_wf(self@),
        ensures
            final(out)@ == old(out)@ + spec_encode_frame(self@),
    {
        let tag: u8 = match self.reliability {
            Reliability::Unreliable => 0,
            Reliability::UnreliableSequenced => 1,
            Reliability::Reliable => 2,
            Reliability::ReliableOrdered => 3,
            Reliability::ReliableSequenced => 4,
        };
        let split_bit: u8 = match self.split {
            Some(_) => 0x10,
            None => 0,
        };
        let flags: u8 = (tag << 5) | split_bit;
        proof {
            assert(flags == spec_frame_flags(self@));
        }
        out.push(flags);
        push_u16_be(out, self.payload.len() as u16);
        match &self.reliable_index {
            Some(x) => push_u24_le(out, *x),
            None => (),
        };
        match &self.sequence_index {
            Some(x) => push_u24_le(out, *x),
            None => (),
        };
        match &self.order {
            Some(oi) => {
                push_u24_le(out, oi.index);
                out.push(oi.channel);
            },
            None => (),
        };
        match &self.split {
            Some(si) => {
                push_u16_be(out, si.id);
                push_u32_be(out, si.count);
                push_u32_be(out, si.index);
            },
            None => (),
        };
        push_bytes(out, &self.payload);
        proof {
            assert(out@ =~= old(out)@ + spec_encode_frame(self@));
        }
    }

    /// Decodes one frame at `pos`, returning it with the position after it.
    pub fn decode_from(v: &Vec<u8>, pos: usize) -> (r: Result<(Frame, usize), RakNetError>)
        requires
            pos <= v.len(),
        ensures
            match r {
                Ok((f, end)) => spec_decode_frame(v@, pos as int) == Some((f@, end as int)) && pos
                    < end <= v@.len(),
                Err(e) => spec_decode_frame(v@, pos as int) is None && e
                    == RakNetError::MalformedPacket,
            },
    {
        if v.len() - pos < 3 {
            return Err(RakNetError::MalformedPacket);
        }
        let flags = v[pos];
        if flags & 0x0f != 0 {
            return Err(RakNetError::MalformedPacket);
        }
        let tag = flags >> 5;
        let rel = if tag == 0 {
            Reliability::Unreliable
        } else if tag == 1 {
            Reliability::UnreliableSequenced
        } else if tag == 2 {
            Reliability::Reliable
        } else if tag == 3 {
            Reliability::ReliableOrdered
        } else if tag == 4 {
            Reliability::ReliableSequenced
        } else {
            return Err(RakNetError::MalformedPacket);
        };
        let has_split = flags & 0x10 == 0x10;
        let len = read_u16_be(v, pos + 1) as usize;
        let header: usize = 3 + (if rel.is_reliable() {
            3
        } else {
            0
        }) + (if rel.is_sequenced() {
            3
        } else {
            0
        }) + (if rel.is_ordered() {
            4
        } else {
            0
        }) + (if has_split {
            10
        } else {
            0
        });
        if v.len() - pos < header || len > v.len() - pos - header {
            return Err(RakNetError::MalformedPacket);
        }
        let off_rel = pos + 3;
        let off_seq = off_rel + if rel.is_reliable() {
            3
        } else {
            0
        };
        let off_ord = off_seq + if rel.is_sequenced() {
            3
        } else {
            0
        };
        let off_split = off_ord + if rel.is_ordered() {
            4
        } else {
            0
        };
        let off_payload = off_split + if has_split {
            10
        } else {
            0
        };
        let end = off_payload + len;
        let reliable_index = if rel.is_reliable() {
            Some(read_u24_le(v, off_rel))
        } else {
            None
        };
        let sequence_index = if rel.is_sequenced() {
            Some(read_u24_le(v, off_seq))
        } else {
            None
        };
        let order = if rel.is_ordered() {
            Some(OrderInfo { index: read_u24_le(v, off_ord), channel: v[off_ord + 3] })
        } else {
            None
        };
        let split = if has_split {
            Some(
                SplitInfo {
                    id: read_u16_be(v, off_split),
                    count: read_u32_be(v, off_split + 2),
                    index: read_u32_be(v, off_split + 6),
                },
            )
        } else {
            None
        };
        let payload = read_bytes(v, off_payload, end);
        let f = Frame { reliability: rel, reliable_index, sequence_index, order, split, payload };
        Ok((f, end))
    }
}

/// An acknowledgment record: the inclusive range of datagram sequence
/// numbers `start..=end`; a single number is the range of itself.
#[derive(Debug, Clone, Copy, PartialEq, Eq, Structural)]
pub struct AckRecord {
    pub start: u32,
    pub end: u32,
}

/// A record is in range and canonical: a one-number range is written in the
/// single form, so `start <= end` and both fit 24 bits.
pub open spec fn record_wf(r: AckRecord) -> bool {
    r.start <= r.end < 0x1000000
}

/// The bytes of one record: the single form for one number, the range form
/// for more.
pub open spec fn spec_encode_record(r: AckRecord) -> Seq<u8> {
    if r.start == r.end {
        seq![1u8] + spec_u24_le(r.start)
    } else {
        seq![0u8] + spec_u24_le(r.start) + spec_u24_le(r.end)
    }
}

/// The bytes of a record list, in order.
pub open spec fn spec_encode_records(rs: Seq<AckRecord>) -> Seq<u8>
    decreases rs.len(),
{
    if rs.len() == 0 {
        Seq::empty()
    } else {
        spec_encode_record(rs[0]) + spec_encode_records(rs.skip(1))
    }
}

/// Decoding of `count` records starting at `pos`: the records and the
/// position after them.
pub open spec fn spec_decode_records(b: Seq<u8>, pos: int, count: int) -> Option<
    (Seq<AckRecord>, int),
>
    decreases count,
{
    if count <= 0 {
        Some((Seq::empty(), pos))
    } else if pos + 4 > b.len() {
        None
    } else if b[pos] == 1u8 {
        let x = spec_u24_from_le(b.subrange(pos + 1, pos + 4));
        match spec_decode_records(b, pos + 4, count - 1) {
            Some((rest, end)) => Some((seq![AckRecord { start: x, end: x }] + rest, end)),
            None => None,
        }
    } else if b[pos] == 0u8 {
        if pos + 7 > b.len() {
            None
        } else {
            let x = spec_u24_from_le(b.subrange(pos + 1, pos + 4));
            let y = spec_u24_from_le(b.subrange(pos + 4, pos + 7));
            match spec_decode_records(b, pos + 7, count - 1) {
                Some((rest, end)) => Some((seq![AckRecord { start: x, end: y }] + rest, end)),
                None => None,
            }
        }
    } else {
        None
    }
}

/// The bytes of a frame list, in order.
pub open spec fn spec_encode_frames(fs: Seq<FrameView>) -> Seq<u8>
    decreases fs.len(),
{
    if fs.len() == 0 {
        Seq::empty()
    } else {
        spec_encode_frame(fs[0]) + spec_encode_frames(fs.skip(1))
    }
}

/// Decoding of frames from `pos` to the end of the buffer.
pub open spec fn spec_decode_frames(b: Seq<u8>, pos: int) -> Option<Seq<FrameView>>
    decreases b.len() - pos,
{
    if pos == b.len() {
        Some(Seq::empty())
    } else {
        match spec_decode_frame(b, pos) {
            Some((f, end)) => if pos < end <= b.len() {
                match spec_decode_frames(b, end) {
                    Some(rest) => Some(seq![f] + rest),
                    None => None,
                }
            } else {
                None
            },
            None => None,
        }
    }
}

/// Appending one frame to a list appends its bytes.
pub proof fn lemma_encode_frames_snoc(fs: Seq<FrameView>)
    requires
        fs.len() > 0,
    ensures
        spec_encode_frames(fs) == spec_encode_frames(fs.drop_last()) + spec_encode_frame(
            fs.last(),
        ),
    decreases fs.len(),
{
    if fs.len() == 1 {
        assert(fs.drop_last() =~= Seq::<FrameView>::empty());
        assert(fs.skip(1) =~= Seq::<FrameView>::empty());
        assert(spec_encode_frames(fs) =~= spec_encode_frames(fs.drop_last()) + spec_encode_frame(
            fs.last(),
        ));
    } else {
        lemma_encode_frames_snoc(fs.skip(1));
        assert(fs.skip(1).drop_last() =~= fs.drop_last().skip(1));
        assert(fs.skip(1).last() == fs.last());
        assert(fs.drop_last()[0] == fs[0]);
        assert(spec_encode_frames(fs.drop_last()) == spec_encode_frame(fs[0])
            + spec_encode_frames(fs.drop_last().skip(1)));
        assert(spec_encode_frames(fs) =~= spec_encode_frames(fs.drop_last()) + spec_encode_frame(
            fs.last(),
        ));
    }
}

/// Appending one record to a list appends its bytes.
pub proof fn lemma_encode_records_snoc(rs: Seq<AckRecord>)
    requires
        rs.len() > 0,
    ensures
        spec_encode_records(rs) == spec_encode_records(rs.drop_last()) + spec_encode_record(
            rs.last(),
        ),
    decreases rs.len(),
{
    if rs.len() == 1 {
        assert(rs.drop_last() =~= Seq::<AckRecord>::empty());
        assert(rs.skip(1) =~= Seq::<AckRecord>::empty());
        assert(spec_encode_records(rs) =~= spec_encode_records(rs.drop_last())
            + spec_encode_record(rs.last()));
    } else {
        lemma_encode_records_snoc(rs.skip(1));
        assert(rs.skip(1).drop_last() =~= rs.drop_last().skip(1));
        assert(rs.skip(1).last() == rs.last());
        assert(rs.drop_last()[0] == rs[0]);
        assert(spec_encode_records(rs.drop_last()) == spec_encode_record(rs[0])
            + spec_encode_records(rs.drop_last().skip(1)));
        assert(spec_encode_records(rs) =~= spec_encode_records(rs.drop_last())
            + spec_encode_record(rs.last()));
    }
}

/// A packed frame list decodes back from where its bytes end the buffer.
#[verifier::rlimit(100)]
pub proof fn lemma_frames_round_trip_at(fs: Seq<FrameView>, b: Seq<u8>, pos: int)
    requires
        forall|i: int| 0 <= i < fs.len() ==> frame_wf(#[trigger] fs[i]),
        0 <= pos,
        pos + spec_encode_frames(fs).len() == b.len(),
        b.subrange(pos, b.len() as int) == spec_encode_frames(fs),
    ensures
        spec_decode_frames(b, pos) == Some(fs),
    decreases fs.len(),
{
    if fs.len() == 0 {
        assert(pos == b.len());
    } else {
        let f = fs[0];
        let e0 = spec_encode_frame(f);
        let rest = spec_encode_frames(fs.skip(1));
        assert(spec_encode_frames(fs) == e0 + rest);
        let w = b.subrange(pos, b.len() as int);
        assert(b.subrange(pos, pos + e0.len()) =~= e0) by {
            assert(forall|i: int|
                #![trigger b.subrange(pos, pos + e0.len() as int)[i]]
                0 <= i < e0.len() ==> b.subrange(pos, pos + e0.len() as int)[i] == b[pos + i]
                    && w[i] == b[pos + i] && w[i] == (e0 + rest)[i]);
        }
        lemma_frame_round_trip_at(f, b, pos);
        let end = pos + e0.len();
        assert(spec_decode_frame(b, pos) == Some((f, end)));
        assert(b.subrange(end, b.len() as int) =~= rest) by {
            assert(forall|i: int|
                #![trigger b.subrange(end, b.len() as int)[i]]
                0 <= i < rest.len() ==> b.subrange(end, b.len() as int)[i] == b[end + i] && w[e0.len()
                    + i] == b[end + i] && w[e0.len() + i] == (e0 + rest)[e0.len() + i]);
        }
        assert(forall|i: int| 0 <= i < fs.skip(1).len() ==> frame_wf(#[trigger] fs.skip(1)[i]));
        lemma_frames_round_trip_at(fs.skip(1), b, end);
        assert(seq![f] + fs.skip(1) =~= fs);
    }
}

/// A packed record list decodes back from where its bytes stand.
#[verifier::rlimit(100)]
pub proof fn lemma_records_round_trip_at(rs: Seq<AckRecord>, b: Seq<u8>, pos: int)
    requires
        forall|i: int| 0 <= i < rs.len() ==> record_wf(#[trigger] rs[i]),
        0 <= pos,
        pos + spec_encode_records(rs).len() <= b.len(),
        b.subrange(pos, pos + spec_encode_records(rs).len()) == spec_encode_records(rs),
    ensures
        spec_decode_records(b, pos, rs.len() as int) == Some(
            (rs, pos + spec_encode_records(rs).len()),
        ),
    decreases rs.len(),
{
    if rs.len() == 0 {
    } else {
        let r = rs[0];
        let e0 = spec_encode_record(r);
        let rest = spec_encode_records(rs.skip(1));
        assert(spec_encode_records(rs) == e0 + rest);
        let n = spec_encode_records(rs).len() as int;
        let w = b.subrange(pos, pos + n);
        assert(forall|i: int| #![trigger w[i]] 0 <= i < n ==> w[i] == b[pos + i] && w[i] == (e0
            + rest)[i]);
        lemma_u24_le_round_trip(r.start);
        lemma_u24_le_round_trip(r.end);
        let end0 = pos + e0.len();
        assert forall|i: int| 0 <= i < e0.len() implies b[pos + i] == e0[i] by {
            assert(w[i] == b[pos + i]);
            assert(w[i] == (e0 + rest)[i]);
        }
        if r.start == r.end {
            assert(e0.len() == 4);
            assert(e0[0] == 1u8);
            assert(forall|i: int|
                #![trigger spec_u24_le(r.start)[i]]
                0 <= i < 3 ==> e0[1 + i] == spec_u24_le(r.start)[i]);
            assert(b[pos] == 1u8);
            assert(b.subrange(pos + 1, pos + 4) =~= spec_u24_le(r.start)) by {
                assert(forall|i: int|
                    #![trigger b.subrange(pos + 1, pos + 4)[i]]
                    0 <= i < 3 ==> b.subrange(pos + 1, pos + 4)[i] == b[pos + 1 + i]);
            }
        } else {
            assert(e0.len() == 7);
            assert(e0[0] == 0u8);
            assert(forall|i: int|
                #![trigger spec_u24_le(r.start)[i]]
                0 <= i < 3 ==> e0[1 + i] == spec_u24_le(r.start)[i]);
            assert(forall|i: int|
                #![trigger spec_u24_le(r.end)[i]]
                0 <= i < 3 ==> e0[4 + i] == spec_u24_le(r.end)[i]);
            assert(b[pos] == 0u8);
            assert(b.subrange(pos + 1, pos + 4) =~= spec_u24_le(r.start)) by {
                assert(forall|i: int|
                    #![trigger b.subrange(pos + 1, pos + 4)[i]]
                    0 <= i < 3 ==> b.subrange(pos + 1, pos + 4)[i] == b[pos + 1 + i]);
            }
            assert(b.subrange(pos + 4, pos + 7) =~= spec_u24_le(r.end)) by {
                assert(forall|i: int|
                    #![trigger b.subrange(pos + 4, pos + 7)[i]]
                    0 <= i < 3 ==> b.subrange(pos + 4, pos + 7)[i] == b[pos + 4 + i]);
            }
        }
        assert(b.subrange(end0, end0 + rest.len()) =~= rest) by {
            assert(forall|i: int|
                #![trigger b.subrange(end0, end0 + rest.len() as int)[i]]
                0 <= i < rest.len() ==> b.subrange(end0, end0 + rest.len() as int)[i] == b[end0
                    + i] && w[e0.len() + i] == b[end0 + i]);
        }
        lemma_records_round_trip_at(rs.skip(1), b, end0);
        assert(seq![r] + rs.skip(1) =~= rs);
    }
}

/// The flag byte of a data datagram.
pub const DATAGRAM_FLAG_DATA: u8 = 0x80;

/// The flag byte of an acknowledgment datagram.
pub const DATAGRAM_FLAG_ACK: u8 = 0xc0;

/// The flag byte of a negative-acknowledgment datagram.
pub const DATAGRAM_FLAG_NACK: u8 = 0xa0;

/// The UDP payload unit: a data datagram packs frames under a 24-bit
/// sequence number; ACK and NACK datagrams carry sequence-number ranges.
#[derive(Debug, Clone, PartialEq)]
pub enum Datagram {
    Data { sequence: u32, frames: Vec<Frame> },
    Ack { records: Vec<AckRecord> },
    Nack { records: Vec<AckRecord> },
}

/// The mathematical content of a datagram.
pub enum DatagramView {
    Data { sequence: u32, frames: Seq<FrameView> },
    Ack { records: Seq<AckRecord> },
    Nack { records: Seq<AckRecord> },
}

/// The frame list seen mathematically.
pub open spec fn frames_view(fs: Seq<Frame>) -> Seq<FrameView> {
    Seq::new(fs.len(), |i: int| fs[i]@)
}

impl View for Datagram {
    type V = DatagramView;

    open spec fn view(&self) -> DatagramView {
        match self {
            Datagram::Data { sequence, frames } => DatagramView::Data {
                sequence: *sequence,
                frames: frames_view(frames@),
            },
            Datagram::Ack { records } => DatagramView::Ack { records: records@ },
            Datagram::Nack { records } => DatagramView::Nack { records: records@ },
        }
    }
}

/// Well-formedness: the sequence number fits 24 bits, every frame is
/// well-formed, every record canonical, and a record count fits its field.
pub open spec fn datagram_wf(d: DatagramView) -> bool {
    match d {
        DatagramView::Data { sequence, frames } => sequence < 0x1000000 && forall|i: int|
            0 <= i < frames.len() ==> frame_wf(#[trigger] frames[i]),
        DatagramView::Ack { records } => records.len() <= 0xffff && forall|i: int|
            0 <= i < records.len() ==> record_wf(#[trigger] records[i]),
        DatagramView::Nack { records } => records.len() <= 0xffff && forall|i: int|
            0 <= i < records.len() ==> record_wf(#[trigger] records[i]),
    }
}

/// The exact bytes of a datagram.
pub open spec fn spec_encode_datagram(d: DatagramView) -> Seq<u8> {
    match d {
        DatagramView::Data { sequence, frames } => seq![DATAGRAM_FLAG_DATA] + spec_u24_le(sequence)
            + spec_encode_frames(frames),
        DatagramView::Ack { records } => seq![DATAGRAM_FLAG_ACK] + spec_u16_be(
            records.len() as u16,
        ) + spec_encode_records(records),
        DatagramView::Nack { records } => seq![DATAGRAM_FLAG_NACK] + spec_u16_be(
            records.len() as u16,
        ) + spec_encode_records(records),
    }
}

/// Decoding of a whole datagram; the record list of an ACK or NACK must
/// consume the buffer exactly.
pub open spec fn spec_decode_datagram(b: Seq<u8>) -> Option<DatagramView> {
    if b.len() < 1 {
        None
    } else if b[0] == DATAGRAM_FLAG_DATA {
        if b.len() < 4 {
            None
        } else {
            match spec_decode_frames(b, 4) {
                Some(fs) => Some(
                    DatagramView::Data {
                        sequence: spec_u24_from_le(b.subrange(1, 4)),
                        frames: fs,
                    },
                ),
                None => None,
            }
        }
    } else if b[0] == DATAGRAM_FLAG_ACK || b[0] == DATAGRAM_FLAG_NACK {
        if b.len() < 3 {
            None
        } else {
            let count = spec_u16_from_be(b.subrange(1, 3)) as int;
            match spec_decode_records(b, 3, count) {
                Some((rs, end)) => if end == b.len() {
                    if b[0] == DATAGRAM_FLAG_ACK {
                        Some(DatagramView::Ack { records: rs })
                    } else {
                        Some(DatagramView::Nack { records: rs })
                    }
                } else {
                    None
                },
                None => None,
            }
        }
    } else {
        None
    }
}

/// Encoding then decoding gives the datagram back.
#[verifier::rlimit(100)]
pub proof fn lemma_datagram_round_trip(d: DatagramView)
    requires
        datagram_wf(d),
    ensures
        spec_decode_datagram(spec_encode_datagram(d)) == Some(d),
{
    let b = spec_encode_datagram(d);
    match d {
        DatagramView::Data { sequence, frames } => {
            lemma_u24_le_round_trip(sequence);
            let head = seq![DATAGRAM_FLAG_DATA] + spec_u24_le(sequence);
            let body = spec_encode_frames(frames);
            assert(b == head + body);
            assert(head.len() == 4);
            assert(b[0] == DATAGRAM_FLAG_DATA);
            assert(b.subrange(1, 4) =~= spec_u24_le(sequence));
            assert(b.subrange(4, b.len() as int) =~= body);
            lemma_frames_round_trip_at(frames, b, 4);
        },
        DatagramView::Ack { records } => {
            lemma_u16_be_round_trip(records.len() as u16);
            let head = seq![DATAGRAM_FLAG_ACK] + spec_u16_be(records.len() as u16);
            let body = spec_encode_records(records);
            assert(b == head + body);
            assert(head.len() == 3);
            assert(b[0] == DATAGRAM_FLAG_ACK);
            assert(b.subrange(1, 3) =~= spec_u16_be(records.len() as u16));
            assert(b.subrange(3, b.len() as int) =~= body);
            lemma_records_round_trip_at(records, b, 3);
        },
        DatagramView::Nack { records } => {
            lemma_u16_be_round_trip(records.len() as u16);
            let head = seq![DATAGRAM_FLAG_NACK] + spec_u16_be(records.len() as u16);
            let body = spec_encode_records(records);
            assert(b == head + body);
            assert(head.len() == 3);
            assert(b[0] == DATAGRAM_FLAG_NACK);
            assert(b.subrange(1, 3) =~= spec_u16_be(records.len() as u16));
            assert(b.subrange(3, b.len() as int) =~= body);
            lemma_records_round_trip_at(records, b, 3);
        },
    }
}

impl Datagram {
    /// Encodes the datagram to its exact wire bytes.
    #[verifier::loop_isolation(false)]
    #[verifier::rlimit(100)]
    pub fn encode(&self) -> (r: Vec<u8>)
        requires
            datagram_wf(self@),
        ensures
            r@ == spec_encode_datagram(self@),
    {
        let mut out: Vec<u8> = Vec::new();
        match self {
            Datagram::Data { sequence, frames } => {
                out.push(DATAGRAM_FLAG_DATA);
                push_u24_le(&mut out, *sequence);
                let ghost fv = frames_view(frames@);
                let mut i: usize = 0;
                proof {
                    assert(self@ == DatagramView::Data { sequence: *sequence, frames: fv });
                    assert forall|j: int| 0 <= j < fv.len() implies frame_wf(
                        #[trigger] fv[j],
                    ) by {
                        match self@ {
                            DatagramView::Data { sequence: s2, frames: f2 } => {
                                assert(f2 == fv);
                                assert(frame_wf(f2[j]));
                            },
                            _ => {
                                assert(false);
                            },
                        }
                    }
                    assert(fv.take(0) =~= Seq::<FrameView>::empty());
                    assert(out@ =~= seq![DATAGRAM_FLAG_DATA] + spec_u24_le(*sequence)
                        + spec_encode_frames(fv.take(0)));
                }
                while i < frames.len()
                    invariant
                        i <= frames@.len(),
                        forall|j: int| 0 <= j < fv.len() ==> frame_wf(#[trigger] fv[j]),
                        out@ == seq![DATAGRAM_FLAG_DATA] + spec_u24_le(*sequence)
                            + spec_encode_frames(fv.take(i as int)),
                    decreases frames@.len() - i,
                {
                    let ghost pre = out@;
                    proof {
                        assert(fv[i as int] == frames@[i as int]@);
                        assert(frame_wf(fv[i as int]));
                    }
                    frames[i].encode_into(&mut out);
                    proof {
                        let t = fv.take(i as int + 1);
                        lemma_encode_frames_snoc(t);
                        assert(t.drop_last() =~= fv.take(i as int));
                        assert(t.last() == fv[i as int]);
                        assert(fv[i as int] == frames@[i as int]@);
                        assert(out@ =~= seq![DATAGRAM_FLAG_DATA] + spec_u24_le(*sequence)
                            + spec_encode_frames(fv.take(i as int + 1)));
                    }
                    i = i + 1;
                }
                proof {
                    assert(fv.take(frames@.len() as int) =~= fv);
                }
            },
            Datagram::Ack { records } => {
                out.push(DATAGRAM_FLAG_ACK);
                self.encode_records_into(records, &mut out);
            },
            Datagram::Nack { records } => {
                out.push(DATAGRAM_FLAG_NACK);
                self.encode_records_into(records, &mut out);
            },
        }
        out
    }

    /// Appends the record count and records of an ACK or NACK body.
    #[verifier::loop_isolation(false)]
    fn encode_records_into(&self, records: &Vec<AckRecord>, out: &mut Vec<u8>)
        requires
            records@.len() <= 0xffff,
            forall|i: int| 0 <= i < records@.len() ==> record_wf(#[trigger] records@[i]),
        ensures
            final(out)@ == old(out)@ + spec_u16_be(records@.len() as u16) + spec_encode_records(
                records@,
            ),
    {
        push_u16_be(out, records.len() as u16);
        let mut i: usize = 0;
        proof {
            assert(records@.take(0) =~= Seq::<AckRecord>::empty());
            assert(out@ =~= old(out)@ + spec_u16_be(records@.len() as u16) + spec_encode_records(
                records@.take(0),
            ));
        }
        while i < records.len()
            invariant
                i <= records@.len(),
                out@ == old(out)@ + spec_u16_be(records@.len() as u16) + spec_encode_records(
                    records@.take(i as int),
                ),
            decreases records@.len() - i,
        {
            let rec = records[i];
            if rec.start == rec.end {
                out.push(1u8);
                push_u24_le(out, rec.start);
            } else {
                out.push(0u8);
                push_u24_le(out, rec.start);
                push_u24_le(out, rec.end);
            }
            proof {
                let t = records@.take(i as int + 1);
                lemma_encode_records_snoc(t);
                assert(t.drop_last() =~= records@.take(i as int));
                assert(t.last() == records@[i as int]);
                assert(out@ =~= old(out)@ + spec_u16_be(records@.len() as u16)
                    + spec_encode_records(records@.take(i as int + 1)));
            }
            i = i + 1;
        }
        proof {
            assert(records@.take(records@.len() as int) =~= records@);
        }
    }

    /// Decodes a whole datagram; anything else is `MalformedPacket`.
    #[verifier::loop_isolation(false)]
    #[verifier::rlimit(100)]
    pub fn decode(v: &Vec<u8>) -> (r: Result<Datagram, RakNetError>)
        ensures
            match r {
                Ok(d) => spec_decode_datagram(v@) == Some(d@),
                Err(e) => spec_decode_datagram(v@) is None && e == RakNetError::MalformedPacket,
            },
    {
        if v.len() < 1 {
            return Err(RakNetError::MalformedPacket);
        }
        let flags = v[0];
        if flags == DATAGRAM_FLAG_DATA {
            if v.len() < 4 {
                return Err(RakNetError::MalformedPacket);
            }
            let sequence = read_u24_le(v, 1);
            let mut frames: Vec<Frame> = Vec::new();
            let mut pos: usize = 4;
            while pos < v.len()
                invariant
                    4 <= pos <= v@.len(),
                    spec_decode_frames(v@, 4) == (match spec_decode_frames(v@, pos as int) {
                        Some(rest) => Some(frames_view(frames@) + rest),
                        None => None::<Seq<FrameView>>,
                    }),
                decreases v@.len() - pos,
            {
                let ghost pre = frames_view(frames@);
                match Frame::decode_from(v, pos) {
                    Ok((f, end)) => {
                        frames.push(f);
                        proof {
                            assert(frames_view(frames@) =~= pre.push(f@));
                            assert forall|rest: Seq<FrameView>| true implies pre.push(f@) + rest
                                =~= pre + (seq![f@] + rest) by {}
                        }
                        pos = end;
                    },
                    Err(_) => {
                        return Err(RakNetError::MalformedPacket);
                    },
                }
            }
            proof {
                assert(spec_decode_frames(v@, pos as int) == Some(Seq::<FrameView>::empty()));
                assert(frames_view(frames@) + Seq::<FrameView>::empty() =~= frames_view(frames@));
            }
            Ok(Datagram::Data { sequence, frames })
        } else if flags == DATAGRAM_FLAG_ACK || flags == DATAGRAM_FLAG_NACK {
            if v.len() < 3 {
                return Err(RakNetError::MalformedPacket);
            }
            let count = read_u16_be(v, 1) as usize;
            let mut records: Vec<AckRecord> = Vec::new();
            let mut pos: usize = 3;
            let mut left = count;
            while left > 0
                invariant
                    3 <= pos <= v@.len(),
                    left <= count,
                    records@.len() + left == count,
                    spec_decode_records(v@, 3, count as int) == (match spec_decode_records(
                        v@,
                        pos as int,
                        left as int,
                    ) {
                        Some((rest, end)) => Some((records@ + rest, end)),
                        None => None::<(Seq<AckRecord>, int)>,
                    }),
                decreases left,
            {
                let ghost pre = records@;
                if v.len() - pos < 4 {
                    return Err(RakNetError::MalformedPacket);
                }
                let kind = v[pos];
                if kind == 1u8 {
                    let x = read_u24_le(v, pos + 1);
                    records.push(AckRecord { start: x, end: x });
                    proof {
                        assert forall|rest: Seq<AckRecord>| true implies pre.push(
                            AckRecord { start: x, end: x },
                        ) + rest =~= pre + (seq![AckRecord { start: x, end: x }] + rest) by {}
                    }
                    pos = pos + 4;
                } else if kind == 0u8 {
                    if v.len() - pos < 7 {
                        return Err(RakNetError::MalformedPacket);
                    }
                    let x = read_u24_le(v, pos + 1);
                    let y = read_u24_le(v, pos + 4);
                    records.push(AckRecord { start: x, end: y });
                    proof {
                        assert forall|rest: Seq<AckRecord>| true implies pre.push(
                            AckRecord { start: x, end: y },
                        ) + rest =~= pre + (seq![AckRecord { start: x, end: y }] + rest) by {}
                    }
                    pos = pos + 7;
                } else {
                    return Err(RakNetError::MalformedPacket);
                }
                left = left - 1;
            }
            proof {
                assert(spec_decode_records(v@, pos as int, 0) == Some(
                    (Seq::<AckRecord>::empty(), pos as int),
                ));
                assert(records@ + Seq::<AckRecord>::empty() =~= records@);
            }
            if pos != v.len() {
                return Err(RakNetError::MalformedPacket);
            }
            if flags == DATAGRAM_FLAG_ACK {
                Ok(Datagram::Ack { records })
            } else {
                Ok(Datagram::Nack { records })
            }
        } else {
            Err(RakNetError::MalformedPacket)
        }
    }
}

} // verus!
