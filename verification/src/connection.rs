//! The per-peer connection state machine. It drives the handshake from the
//! offline discovery packets to the connected session, stamps outgoing
//! frames and datagrams, deduplicates and routes incoming frames through
//! reassembly and ordering, and turns acknowledgment state and timeouts
//! into resends and closure. Unexpected packets for the current state are
//! ignored, never fatal: duplicates are normal over UDP.

use vstd::prelude::*;

use crate::fragment::{
    spec_chunks, split_payload, FragmentAssembler, MAX_FRAGMENT_COUNT,
};
use crate::order::{
    newer_than, next_index, spec_next_index, INDEX_SPACE, OrderChannel, SequencedChannel,
};
use crate::protocol::frame::{
    frame_wf, AckRecord, Frame, FrameView, OrderInfo, Reliability, SplitInfo,
};
use crate::protocol::offline::{OfflinePacket, MIN_MTU};
use crate::protocol::online::OnlinePacket;
use crate::recovery::RecoveryQueue;

verus! {

/// How many independent ordering lanes a connection keeps per direction.
pub const CHANNEL_COUNT: usize = 8;

/// The bytes of each datagram kept for headers when fragmenting: the
/// datagram header and the largest frame header.
pub const FRAME_OVERHEAD: u16 = 27;

/// Where a connection stands in its lifecycle.
#[derive(Debug, Clone, Copy, PartialEq, Eq, Structural)]
pub enum ConnectionState {
    /// Nothing but discovery pings seen yet.
    Unconnected,
    /// Open-connection exchange under way, negotiating the MTU.
    MtuDiscovery,
    /// MTU agreed; waiting for the session-level request/accept.
    HandshakeRequested,
    /// The session is up: data frames flow.
    Connected,
    /// Torn down by disconnect or timeout; nothing more is accepted.
    Closed,
}

/// Per-peer protocol state: the handshake position, the negotiated MTU, the
/// outgoing counters, the recovery queue, reassembly and ordering state,
/// and the receive-side acknowledgment bookkeeping.
pub struct Connection {
    pub state: ConnectionState,
    /// This endpoint's identifier, presented during the handshake.
    pub guid: u64,
    /// The negotiated maximum transmission unit.
    pub mtu: u16,
    /// The next outgoing datagram sequence number (24-bit, wrapping).
    pub sequence_out: u32,
    /// The next outgoing reliable index (24-bit, wrapping).
    pub reliable_out: u32,
    /// The next outgoing order index per channel.
    pub order_out: Vec<u32>,
    /// The next outgoing compound id for splits.
    pub split_out: u16,
    /// Reliable sends awaiting acknowledgment.
    pub recovery: RecoveryQueue,
    /// Partial compound messages being reassembled.
    pub fragments: FragmentAssembler,
    /// In-order delivery state per channel.
    pub order_in: Vec<OrderChannel>,
    /// Newest-wins delivery state per channel.
    pub sequence_in: Vec<SequencedChannel>,
    /// Reliable indices already delivered once (duplicates are dropped).
    pub seen_reliable: Vec<u32>,
    /// Datagram sequence numbers received and not yet acknowledged.
    pub ack_queue: Vec<u32>,
    /// Sequence numbers inferred missing from gaps, to negatively acknowledge.
    pub nack_queue: Vec<u32>,
    /// Whether any data datagram arrived yet.
    pub receiving: bool,
    /// The newest datagram sequence number received (once `receiving`).
    pub highest_in: u32,
    /// When the peer was last heard from.
    pub last_traffic: u64,
}

/// Whether a reliable index was already seen.
pub open spec fn seen_has(s: Seq<u32>, index: u32) -> bool {
    exists|i: int| 0 <= i < s.len() && s[i] == index
}

/// How one released payload reaches the application, by the frame's
/// reliability class: unreliable and plain reliable at once; sequenced
/// newest-wins on its channel; ordered strictly in succession on its
/// channel, early arrivals buffering until the gap before them fills.
pub open spec fn delivery_routed(
    pre: Connection,
    post: Connection,
    f: FrameView,
    payload: Seq<u8>,
    out: Seq<Seq<u8>>,
) -> bool {
    match f.reliability {
        Reliability::Unreliable | Reliability::Reliable => out == seq![payload],
        Reliability::UnreliableSequenced | Reliability::ReliableSequenced => {
            let ch = f.order->Some_0.channel as int;
            let idx = f.sequence_index->Some_0;
            if ch < CHANNEL_COUNT {
                if !pre.sequence_in@[ch].started || crate::order::spec_newer(
                    idx,
                    pre.sequence_in@[ch].latest,
                ) {
                    out == seq![payload] && post.sequence_in@[ch].latest == idx
                } else {
                    out.len() == 0
                }
            } else {
                out.len() == 0
            }
        },
        Reliability::ReliableOrdered => {
            let ch = f.order->Some_0.channel as int;
            let idx = f.order->Some_0.index;
            if ch < CHANNEL_COUNT {
                if idx == pre.order_in@[ch].next {
                    crate::order::delivered_from(pre.order_in@[ch], out, payload)
                } else {
                    out.len() == 0
                }
            } else {
                out.len() == 0
            }
        },
    }
}

impl Connection {
    pub open spec fn wf(&self) -> bool {
        &&& self.mtu >= MIN_MTU
        &&& self.sequence_out < INDEX_SPACE
        &&& self.reliable_out < INDEX_SPACE
        &&& self.order_out@.len() == CHANNEL_COUNT
        &&& forall|i: int| 0 <= i < CHANNEL_COUNT ==> (#[trigger] self.order_out@[i]) < INDEX_SPACE
        &&& self.order_in@.len() == CHANNEL_COUNT
        &&& forall|i: int| 0 <= i < CHANNEL_COUNT ==> (#[trigger] self.order_in@[i]).wf()
        &&& self.sequence_in@.len() == CHANNEL_COUNT
        &&& forall|i: int| 0 <= i < CHANNEL_COUNT ==> (#[trigger] self.sequence_in@[i]).wf()
        &&& self.recovery.wf()
        &&& self.fragments.wf()
        &&& self.highest_in < INDEX_SPACE
        &&& forall|i: int| 0 <= i < self.ack_queue@.len() ==> (#[trigger] self.ack_queue@[i]) < INDEX_SPACE
        &&& forall|i: int| 0 <= i < self.nack_queue@.len() ==> (#[trigger] self.nack_queue@[i]) < INDEX_SPACE
    }

    /// A fresh connection for a newly heard peer.
    pub fn new(guid: u64, now: u64) -> (r: Self)
        ensures
            r.wf(),
            r.state == ConnectionState::Unconnected,
            r.guid == guid,
            r.last_traffic == now,
            r.sequence_out == 0,
            r.reliable_out == 0,
            r.seen_reliable@.len() == 0,
            r.ack_queue@.len() == 0,
            r.nack_queue@.len() == 0,
            !r.receiving,
    {
        let mut order_out: Vec<u32> = Vec::new();
        let mut order_in: Vec<OrderChannel> = Vec::new();
        let mut sequence_in: Vec<SequencedChannel> = Vec::new();
        let mut i: usize = 0;
        while i < CHANNEL_COUNT
            invariant
                i <= CHANNEL_COUNT,
                order_out@.len() == i,
                order_in@.len() == i,
                sequence_in@.len() == i,
                forall|j: int| 0 <= j < i ==> (#[trigger] order_out@[j]) < INDEX_SPACE,
                forall|j: int| 0 <= j < i ==> (#[trigger] order_in@[j]).wf(),
                forall|j: int| 0 <= j < i ==> (#[trigger] sequence_in@[j]).wf(),
            decreases CHANNEL_COUNT - i,
        {
            order_out.push(0);
            order_in.push(OrderChannel::new());
            sequence_in.push(SequencedChannel::new());
            i = i + 1;
        }
        Self {
            state: ConnectionState::Unconnected,
            guid,
            mtu: MIN_MTU,
            sequence_out: 0,
            reliable_out: 0,
            order_out,
            split_out: 0,
            recovery: RecoveryQueue::new(),
            fragments: FragmentAssembler::new(),
            order_in,
            sequence_in,
            seen_reliable: Vec::new(),
            ack_queue: Vec::new(),
            nack_queue: Vec::new(),
            receiving: false,
            highest_in: 0,
            last_traffic: now,
        }
    }

    /// Handles one offline packet as the listening side of the handshake:
    /// a discovery ping is answered with a pong carrying the description
    /// bytes, the first open-connection phase echoes the announced MTU,
    /// the second fixes it and moves to the session handshake. Anything
    /// else for the current state is ignored. A closed connection answers
    /// nothing.
    pub fn handle_offline(&mut self, packet: &OfflinePacket, motd: Vec<u8>, now: u64) -> (r:
        Option<OfflinePacket>)
        requires
            old(self).wf(),
            motd@.len() <= 0xffff,
        ensures
            final(self).wf(),
            *final(self) == (Connection {
                state: final(self).state,
                mtu: final(self).mtu,
                last_traffic: final(self).last_traffic,
                ..*old(self)
            }),
            old(self).state == ConnectionState::Closed ==> r is None && *final(self) == *old(self),
            old(self).state != ConnectionState::Closed ==> match *packet {
                OfflinePacket::UnconnectedPing { time, client_guid } => r == Some(
                    OfflinePacket::UnconnectedPong {
                        time,
                        server_guid: old(self).guid,
                        motd,
                    },
                ) && final(self).state == old(self).state && final(self).mtu == old(self).mtu
                    && final(self).last_traffic == now,
                OfflinePacket::OpenConnectRequest1 { protocol, mtu } => r == Some(
                    OfflinePacket::OpenConnectReply1 { server_guid: old(self).guid, mtu },
                ) && final(self).state == ConnectionState::MtuDiscovery && final(self).mtu == if mtu
                    >= MIN_MTU {
                    mtu
                } else {
                    old(self).mtu
                } && final(self).last_traffic == now,
                OfflinePacket::OpenConnectRequest2 { server_address, mtu, client_guid } => (
                old(self).state == ConnectionState::MtuDiscovery ==> r == Some(
                    OfflinePacket::OpenConnectReply2 {
                        server_guid: old(self).guid,
                        client_address: server_address,
                        mtu: if mtu >= MIN_MTU {
                            mtu
                        } else {
                            old(self).mtu
                        },
                    },
                ) && final(self).state == ConnectionState::HandshakeRequested && final(self).mtu
                    == (if mtu >= MIN_MTU {
                    mtu
                } else {
                    old(self).mtu
                }) && final(self).last_traffic == now) && (old(self).state
                    != ConnectionState::MtuDiscovery ==> r is None && *final(self) == *old(self)),
                _ => r is None && *final(self) == *old(self),
            },
    {
        if matches!(self.state, ConnectionState::Closed) {
            return None;
        }
        match packet {
            OfflinePacket::UnconnectedPing { time, client_guid: _ } => {
                self.last_traffic = now;
                Some(OfflinePacket::UnconnectedPong { time: *time, server_guid: self.guid, motd })
            },
            OfflinePacket::OpenConnectRequest1 { protocol: _, mtu } => {
                self.last_traffic = now;
                self.state = ConnectionState::MtuDiscovery;
                if *mtu >= MIN_MTU {
                    self.mtu = *mtu;
                }
                Some(OfflinePacket::OpenConnectReply1 { server_guid: self.guid, mtu: *mtu })
            },
            OfflinePacket::OpenConnectRequest2 { server_address, mtu, client_guid: _ } => {
                if matches!(self.state, ConnectionState::MtuDiscovery) {
                    self.last_traffic = now;
                    if *mtu >= MIN_MTU {
                        self.mtu = *mtu;
                    }
                    self.state = ConnectionState::HandshakeRequested;
                    Some(
                        OfflinePacket::OpenConnectReply2 {
                            server_guid: self.guid,
                            client_address: *server_address,
                            mtu: self.mtu,
                        },
                    )
                } else {
                    None
                }
            },
            _ => None,
        }
    }

    /// Handles one online session packet: the connection request is
    /// accepted, the new-incoming-connection notice completes the handshake
    /// and the state becomes `Connected`, a connected ping is answered with
    /// a pong echoing its time, and a disconnect closes the connection.
    /// Anything else for the current state is ignored.
    pub fn handle_online(&mut self, packet: &OnlinePacket, address: crate::protocol::wire::Address, now: u64) -> (r:
        Option<OnlinePacket>)
        requires
            old(self).wf(),
        ensures
            final(self).wf(),
            *final(self) == (Connection {
                state: final(self).state,
                last_traffic: final(self).last_traffic,
                ..*old(self)
            }),
            old(self).state == ConnectionState::Closed ==> r is None && *final(self) == *old(self),
            old(self).state != ConnectionState::Closed ==> match *packet {
                OnlinePacket::ConnectionRequest { client_guid, time } => (old(self).state
                    == ConnectionState::HandshakeRequested ==> r == Some(
                    OnlinePacket::ConnectionAccept {
                        client_address: address,
                        request_time: time,
                        time: now,
                    },
                ) && final(self).state == ConnectionState::HandshakeRequested && final(self).last_traffic
                    == now) && (old(self).state != ConnectionState::HandshakeRequested ==> r
                    is None && *final(self) == *old(self)),
                OnlinePacket::NewIncomingConnection { .. } => (old(self).state
                    == ConnectionState::HandshakeRequested ==> r is None && final(self).state
                    == ConnectionState::Connected && final(self).last_traffic == now) && (
                old(self).state != ConnectionState::HandshakeRequested ==> r is None && *final(self)
                    == *old(self)),
                OnlinePacket::ConnectedPing { time } => (old(self).state
                    == ConnectionState::Connected ==> r == Some(
                    OnlinePacket::ConnectedPong { ping_time: time, pong_time: now },
                ) && final(self).state == old(self).state && final(self).last_traffic == now) && (
                old(self).state != ConnectionState::Connected ==> r is None && *final(self)
                    == *old(self)),
                OnlinePacket::Disconnect => r is None && final(self).state
                    == ConnectionState::Closed && final(self).last_traffic == old(self).last_traffic,
                _ => r is None && *final(self) == *old(self),
            },
    {
        if matches!(self.state, ConnectionState::Closed) {
            return None;
        }
        match packet {
            OnlinePacket::ConnectionRequest { client_guid: _, time } => {
                if matches!(self.state, ConnectionState::HandshakeRequested) {
                    self.last_traffic = now;
                    Some(
                        OnlinePacket::ConnectionAccept {
                            client_address: address,
                            request_time: *time,
                            time: now,
                        },
                    )
                } else {
                    None
                }
            },
            OnlinePacket::NewIncomingConnection { .. } => {
                if matches!(self.state, ConnectionState::HandshakeRequested) {
                    self.last_traffic = now;
                    self.state = ConnectionState::Connected;
                }
                None
            },
            OnlinePacket::ConnectedPing { time } => {
                if matches!(self.state, ConnectionState::Connected) {
                    self.last_traffic = now;
                    Some(OnlinePacket::ConnectedPong { ping_time: *time, pong_time: now })
                } else {
                    None
                }
            },
            OnlinePacket::Disconnect => {
                self.state = ConnectionState::Closed;
                None
            },
            _ => None,
        }
    }

    /// Accepts a reliable index exactly once: the first arrival records it
    /// and is delivered, every duplicate is dropped silently.
    #[verifier::loop_isolation(false)]
    pub fn accept_reliable(&mut self, index: u32) -> (r: bool)
        requires
            old(self).wf(),
        ensures
            final(self).wf(),
            r == !seen_has(old(self).seen_reliable@, index),
            r ==> final(self).seen_reliable@ == old(self).seen_reliable@.push(index),
            !r ==> *final(self) == *old(self),
            seen_has(final(self).seen_reliable@, index),
            *final(self) == (Connection { seen_reliable: final(self).seen_reliable, ..*old(self) }),
    {
        let mut i: usize = 0;
        while i < self.seen_reliable.len()
            invariant
                i <= self.seen_reliable@.len(),
                forall|j: int| 0 <= j < i ==> self.seen_reliable@[j] != index,
            decreases self.seen_reliable@.len() - i,
        {
            if self.seen_reliable[i] == index {
                proof {
                    assert(seen_has(self.seen_reliable@, index)) by {
                        assert(self.seen_reliable@[i as int] == index);
                    }
                }
                return false;
            }
            i = i + 1;
        }
        self.seen_reliable.push(index);
        proof {
            assert(self.seen_reliable@[old(self).seen_reliable@.len() as int] == index);
        }
        true
    }

    /// Stamps the next outgoing datagram sequence number; numbers are never
    /// reused, they only advance (circularly).
    pub fn next_sequence(&mut self) -> (r: u32)
        requires
            old(self).wf(),
        ensures
            final(self).wf(),
            r == old(self).sequence_out,
            final(self).sequence_out == spec_next_index(old(self).sequence_out),
            *final(self) == (Connection { sequence_out: final(self).sequence_out, ..*old(self) }),
    {
        let r = self.sequence_out;
        self.sequence_out = next_index(self.sequence_out);
        r
    }

    /// Wraps one application payload into frames: a payload within the MTU
    /// budget rides one frame; a larger one is split into chunks under a
    /// fresh compound id, each chunk a frame sharing the same reliability
    /// metadata, so the receiver reassembles transparently. The frames'
    /// payloads concatenate back to the original (`spec_chunks` order), and
    /// the reliable and order indices stamp consecutively from the
    /// connection's counters, which advance by exactly the frame count. The
    /// payload must fit the fragment-count cap the receiving side enforces.
    #[verifier::loop_isolation(false)]
    #[verifier::rlimit(100)]
    pub fn make_frames(&mut self, payload: Vec<u8>, reliability: Reliability, channel: u8) -> (r:
        Vec<Frame>)
        requires
            old(self).wf(),
            (channel as int) < CHANNEL_COUNT,
            payload@.len() > 0,
            payload@.len() <= ((old(self).mtu - FRAME_OVERHEAD) as int) * (
            MAX_FRAGMENT_COUNT as int),
        ensures
            final(self).wf(),
            1 <= r@.len() <= MAX_FRAGMENT_COUNT,
            forall|i: int| 0 <= i < r@.len() ==> frame_wf((#[trigger] r@[i])@),
            forall|i: int| 0 <= i < r@.len() ==> (#[trigger] r@[i])@.reliability == reliability,
            forall|i: int|
                0 <= i < r@.len() ==> (#[trigger] r@[i])@.reliable_index == (
                if reliability.spec_is_reliable() {
                    Some(crate::order::spec_add_mod(old(self).reliable_out, i as nat))
                } else {
                    None::<u32>
                }),
            forall|i: int|
                0 <= i < r@.len() ==> (#[trigger] r@[i])@.order == (
                if reliability.spec_is_ordered() {
                    Some(
                        OrderInfo {
                            index: crate::order::spec_add_mod(
                                old(self).order_out@[channel as int],
                                i as nat,
                            ),
                            channel,
                        },
                    )
                } else {
                    None::<OrderInfo>
                }),
            forall|i: int|
                0 <= i < r@.len() ==> (#[trigger] r@[i])@.sequence_index == (
                if reliability.spec_is_sequenced() {
                    Some(
                        crate::order::spec_add_mod(old(self).order_out@[channel as int], i as nat),
                    )
                } else {
                    None::<u32>
                }),
            r@.len() == 1 ==> r@[0]@.payload == payload@ && r@[0]@.split is None,
            r@.len() > 1 ==> {
                let chunk = (old(self).mtu - FRAME_OVERHEAD) as int;
                forall|i: int|
                    0 <= i < r@.len() ==> ((#[trigger] r@[i])@.payload == spec_chunks(
                        payload@,
                        chunk,
                    )[i] && (r@[i]@.split matches Some(si) && si.id == old(self).split_out
                        && si.count == r@.len() && si.index == i))
            },
            final(self).reliable_out == (if reliability.spec_is_reliable() {
                crate::order::spec_add_mod(old(self).reliable_out, r@.len() as nat)
            } else {
                old(self).reliable_out
            }),
            final(self).order_out@ == (if reliability.spec_is_ordered() {
                old(self).order_out@.update(
                    channel as int,
                    crate::order::spec_add_mod(
                        old(self).order_out@[channel as int],
                        r@.len() as nat,
                    ),
                )
            } else {
                old(self).order_out@
            }),
            final(self).split_out == (if r@.len() > 1 {
                if old(self).split_out == 0xffff {
                    0u16
                } else {
                    (old(self).split_out + 1) as u16
                }
            } else {
                old(self).split_out
            }),
            *final(self) == (Connection {
                reliable_out: final(self).reliable_out,
                order_out: final(self).order_out,
                split_out: final(self).split_out,
                ..*old(self)
            }),
    {
        let chunk = (self.mtu - FRAME_OVERHEAD) as usize;
        let ghost pval = payload@;
        let parts = if payload.len() <= chunk {
            let mut single: Vec<Vec<u8>> = Vec::new();
            single.push(payload);
            proof {
                assert(single.deep_view() =~~= seq![pval]);
            }
            single
        } else {
            let many = split_payload(&payload, chunk);
            proof {
                crate::fragment::lemma_chunks_sizes(pval, chunk as int);
                let n = spec_chunks(pval, chunk as int).len() as int;
                assert(n >= 1);
                if n == 1 {
                    assert(pval.len() <= 1 * (chunk as int));
                    assert(false);
                }
                assert(many.deep_view().len() >= 2);
            }
            many
        };
        let split_id = self.split_out;
        let split_count = parts.len();
        let splitting = parts.len() > 1;
        if splitting {
            self.split_out = if self.split_out == 0xffff {
                0
            } else {
                self.split_out + 1
            };
        }
        proof {
            if splitting {
                crate::fragment::lemma_chunks_sizes(payload@, chunk as int);
                let n = spec_chunks(payload@, chunk as int).len() as int;
                assert((n - 1) * (chunk as int) < payload@.len());
                assert(n - 1 <= (n - 1) * (chunk as int)) by (nonlinear_arith)
                    requires
                        chunk >= 1,
                        n >= 1,
                ;
                assert(split_count as int == n);
                assert(split_count <= payload@.len());
                assert((n - 1) * (chunk as int) < (chunk as int) * (MAX_FRAGMENT_COUNT as int)
                    ==> n - 1 < MAX_FRAGMENT_COUNT) by (nonlinear_arith)
                    requires
                        chunk >= 1,
                ;
                assert(split_count <= MAX_FRAGMENT_COUNT);
            }
        }
        let ghost pv = parts.deep_view();
        let ghost snap = *self;
        let ghost o_rel = snap.reliable_out;
        let ghost o_ord = snap.order_out@[channel as int];
        proof {
            assert(snap.wf());
            assert(snap == (Connection { split_out: snap.split_out, ..*old(self) }));
            crate::order::lemma_add_mod_steps(o_rel, 0);
            crate::order::lemma_add_mod_steps(o_ord, 0);
            assert(snap.order_out@.update(channel as int, o_ord) =~= snap.order_out@);
        }
        let mut r: Vec<Frame> = Vec::new();
        let mut rest = parts;
        let mut idx: u32 = 0;
        proof {
            assert(rest.deep_view() =~= pv.skip(0));
        }
        while rest.len() > 0
            invariant
                idx as int + rest@.len() == split_count as int,
                split_count <= MAX_FRAGMENT_COUNT || !splitting,
                split_count == 1 || splitting,
                rest.deep_view() == pv.skip(idx as int),
                r@.len() == idx as int,
                self.reliable_out == (if reliability.spec_is_reliable() {
                    crate::order::spec_add_mod(o_rel, idx as nat)
                } else {
                    o_rel
                }),
                self.reliable_out < INDEX_SPACE,
                self.order_out@ == (if reliability.spec_is_ordered() {
                    snap.order_out@.update(
                        channel as int,
                        crate::order::spec_add_mod(o_ord, idx as nat),
                    )
                } else {
                    snap.order_out@
                }),
                self.order_out@[channel as int] < INDEX_SPACE,
                forall|i: int| 0 <= i < CHANNEL_COUNT ==> (#[trigger] self.order_out@[i]) < INDEX_SPACE,
                self.order_out@.len() == CHANNEL_COUNT,
                *self == (Connection {
                    reliable_out: self.reliable_out,
                    order_out: self.order_out,
                    ..snap
                }),
                forall|i: int| 0 <= i < r@.len() ==> frame_wf((#[trigger] r@[i])@),
                forall|i: int| 0 <= i < r@.len() ==> (#[trigger] r@[i])@.reliability == reliability,
                forall|i: int|
                    0 <= i < r@.len() ==> (#[trigger] r@[i])@.reliable_index == (
                    if reliability.spec_is_reliable() {
                        Some(crate::order::spec_add_mod(o_rel, i as nat))
                    } else {
                        None::<u32>
                    }),
                forall|i: int|
                    0 <= i < r@.len() ==> (#[trigger] r@[i])@.order == (
                    if reliability.spec_is_ordered() {
                        Some(
                            OrderInfo {
                                index: crate::order::spec_add_mod(o_ord, i as nat),
                                channel,
                            },
                        )
                    } else {
                        None::<OrderInfo>
                    }),
                forall|i: int|
                    0 <= i < r@.len() ==> (#[trigger] r@[i])@.sequence_index == (
                    if reliability.spec_is_sequenced() {
                        Some(crate::order::spec_add_mod(o_ord, i as nat))
                    } else {
                        None::<u32>
                    }),
                forall|i: int|
                    0 <= i < r@.len() ==> (#[trigger] r@[i])@.payload == pv[i] && (splitting
                        ==> (r@[i]@.split matches Some(si) && si.id == split_id && si.count
                        == split_count && si.index == i)) && (!splitting ==> r@[i]@.split
                        is None),
                forall|i: int| 0 <= i < pv.len() ==> (#[trigger] pv[i]).len() <= 0xffff,
            decreases rest@.len(),
        {
            let ghost pre_rest = rest.deep_view();
            let part = rest.remove(0);
            proof {
                assert(part.deep_view() =~= part@);
                assert(part@ == pre_rest[0]);
                assert(part@ == pv[idx as int]);
                assert(rest.deep_view() =~= pre_rest.skip(1));
                assert(pv.skip(idx as int).skip(1) =~= pv.skip(idx as int + 1));
                crate::order::lemma_add_mod_steps(o_rel, idx as nat);
                crate::order::lemma_add_mod_steps(o_ord, idx as nat);
            }
            let reliable_index = if reliability.is_reliable() {
                let x = self.reliable_out;
                self.reliable_out = next_index(self.reliable_out);
                Some(x)
            } else {
                None
            };
            let order = if reliability.is_ordered() {
                let ghost lanes0 = self.order_out@;
                let x = self.order_out[channel as usize];
                let bumped = next_index(x);
                self.order_out.remove(channel as usize);
                self.order_out.insert(channel as usize, bumped);
                proof {
                    let ch = channel as int;
                    assert(x == crate::order::spec_add_mod(o_ord, idx as nat));
                    assert forall|j: int| 0 <= j < self.order_out@.len() implies self.order_out@[j]
                        == lanes0.update(ch, bumped)[j] by {
                        if j < ch {
                        } else if j == ch {
                        } else {
                        }
                    }
                    assert(self.order_out@ =~= lanes0.update(ch, bumped));
                    assert(self.order_out@ =~= snap.order_out@.update(
                        ch,
                        crate::order::spec_add_mod(o_ord, (idx + 1) as nat),
                    ));
                    assert(forall|i: int|
                        0 <= i < CHANNEL_COUNT ==> (#[trigger] self.order_out@[i]) < INDEX_SPACE);
                }
                Some(OrderInfo { index: x, channel })
            } else {
                None
            };
            let sequence_index = if reliability.is_sequenced() {
                match &order {
                    Some(oi) => Some(oi.index),
                    None => Some(0),
                }
            } else {
                None
            };
            let split = if splitting {
                Some(SplitInfo { id: split_id, count: split_count as u32, index: idx })
            } else {
                None
            };
            let f = Frame { reliability, reliable_index, sequence_index, order, split, payload: part };
            let ghost pre_r = r@;
            r.push(f);
            proof {
                assert(frame_wf(f@));
                assert forall|i: int| 0 <= i < r@.len() implies (#[trigger] r@[i])@.payload
                    == pv[i] && (splitting ==> (r@[i]@.split matches Some(si) && si.id == split_id
                    && si.count == split_count && si.index == i)) && (!splitting ==> r@[i]@.split
                    is None) by {
                    if i < pre_r.len() {
                        assert(r@[i] == pre_r[i]);
                    } else {
                        assert(r@[i] == f);
                        assert(f@.payload == pv[i]);
                        if splitting {
                            assert((split_count as u32) as int == split_count as int);
                        }
                    }
                }
                assert forall|i: int| 0 <= i < r@.len() implies (#[trigger] r@[i])@.reliable_index
                    == (if reliability.spec_is_reliable() {
                    Some(crate::order::spec_add_mod(o_rel, i as nat))
                } else {
                    None::<u32>
                }) && r@[i]@.order == (if reliability.spec_is_ordered() {
                    Some(OrderInfo { index: crate::order::spec_add_mod(o_ord, i as nat), channel })
                } else {
                    None::<OrderInfo>
                }) && r@[i]@.sequence_index == (if reliability.spec_is_sequenced() {
                    Some(crate::order::spec_add_mod(o_ord, i as nat))
                } else {
                    None::<u32>
                }) by {
                    if i < pre_r.len() {
                        assert(r@[i] == pre_r[i]);
                    } else {
                        assert(r@[i] == f);
                    }
                }
            }
            idx = idx + 1;
        }
        proof {
            if !splitting {
                assert(pv.len() == 1);
                assert(pv[0] == pval);
                assert(r@[0]@.payload == pv[0]);
            } else {
                assert(pv == spec_chunks(payload@, (old(self).mtu - FRAME_OVERHEAD) as int));
            }
        }
        r
    }

    /// One periodic tick: what the retransmit sweep owes a resend comes
    /// back as `(sequence, frames)` pairs, and a peer silent for longer
    /// than `idle_timeout` closes the connection.
    pub fn tick(&mut self, now: u64, retransmit_timeout: u64, idle_timeout: u64) -> (r: Vec<
        (u32, Vec<Vec<u8>>),
    >)
        requires
            old(self).wf(),
        ensures
            final(self).wf(),
            r@.len() + final(self).recovery.entries@.len() == old(self).recovery.entries@.len(),
            forall|i: int|
                0 <= i < r@.len() ==> crate::recovery::rq_has(
                    old(self).recovery.entries@,
                    #[trigger] r@[i].0,
                ) && crate::recovery::rq_expired(
                    old(self).recovery.entries@,
                    r@[i].0,
                    now,
                    retransmit_timeout,
                ) && r@[i].1.deep_view() == crate::recovery::rq_frames(
                    old(self).recovery.entries@,
                    r@[i].0,
                ),
            forall|x: u32|
                #![trigger crate::recovery::rq_has(final(self).recovery.entries@, x)]
                #![trigger crate::recovery::rq_has(old(self).recovery.entries@, x)]
                {
                    &&& (crate::recovery::rq_has(final(self).recovery.entries@, x)
                        <==> crate::recovery::rq_has(old(self).recovery.entries@, x)
                        && !crate::recovery::rq_expired(
                        old(self).recovery.entries@,
                        x,
                        now,
                        retransmit_timeout,
                    ))
                    &&& (crate::recovery::rq_has(final(self).recovery.entries@, x)
                        ==> crate::recovery::rq_sent(final(self).recovery.entries@, x)
                        == crate::recovery::rq_sent(old(self).recovery.entries@, x)
                        && crate::recovery::rq_frames(final(self).recovery.entries@, x)
                        == crate::recovery::rq_frames(old(self).recovery.entries@, x))
                },
            final(self).state == (if old(self).last_traffic + idle_timeout < now {
                ConnectionState::Closed
            } else {
                old(self).state
            }),
            *final(self) == (Connection {
                recovery: final(self).recovery,
                state: final(self).state,
                ..*old(self)
            }),
    {
        let expired = self.recovery.collect_expired(now, retransmit_timeout);
        let timed_out = if idle_timeout > u64::MAX - self.last_traffic {
            false
        } else {
            self.last_traffic + idle_timeout < now
        };
        if timed_out {
            self.state = ConnectionState::Closed;
        }
        expired
    }

    /// Routes one arrived data frame while connected: a duplicate reliable
    /// index is dropped silently; a fragment is buffered until its compound
    /// completes; the (reassembled) payload is then released by its class:
    /// unreliable and plain reliable at once, sequenced newest-wins per
    /// channel, ordered strictly in succession per channel. The returned
    /// payloads are what the application receives, in order.
    #[verifier::rlimit(100)]
    pub fn handle_frame(&mut self, frame: Frame, now: u64) -> (out: Vec<Vec<u8>>)
        requires
            old(self).wf(),
            frame_wf(frame@),
        ensures
            final(self).wf(),
            old(self).state != ConnectionState::Connected ==> out@.len() == 0 && *final(self)
                == *old(self),
            old(self).state == ConnectionState::Connected && (frame@.reliable_index matches Some(
                ri,
            ) && seen_has(old(self).seen_reliable@, ri)) ==> out@.len() == 0 && final(self).seen_reliable@
                == old(self).seen_reliable@,
            old(self).state == ConnectionState::Connected && frame@.split is None && (
            frame@.reliable_index matches Some(ri) ==> !seen_has(old(self).seen_reliable@, ri))
                ==> delivery_routed(*old(self), *final(self), frame@, frame@.payload, out.deep_view()),
            old(self).state == ConnectionState::Connected && (frame@.reliable_index matches Some(
                ri,
            ) ==> !seen_has(old(self).seen_reliable@, ri)) && frame@.split is Some
                ==> exists|res: Option<Seq<u8>>|
                {
                    &&& #[trigger] crate::fragment::insert_effect(
                        old(self).fragments.sets@,
                        final(self).fragments.sets@,
                        frame@.split->Some_0.id,
                        frame@.split->Some_0.count,
                        frame@.split->Some_0.index,
                        frame@.payload,
                        now,
                        res,
                    )
                    &&& match res {
                        Some(msg) => delivery_routed(
                            *old(self),
                            *final(self),
                            frame@,
                            msg,
                            out.deep_view(),
                        ),
                        None => out@.len() == 0 && final(self).sequence_in@ == old(
                            self,
                        ).sequence_in@ && final(self).order_in@ == old(self).order_in@,
                    }
                },
    {
        if !matches!(self.state, ConnectionState::Connected) {
            return Vec::new();
        }
        self.last_traffic = now;
        proof {
            assert(*self == (Connection { last_traffic: now, ..*old(self) }));
        }
        match &frame.reliable_index {
            Some(ri) => {
                if !self.accept_reliable(*ri) {
                    return Vec::new();
                }
            },
            None => (),
        }
        let ghost frags0 = self.fragments.sets@;
        proof {
            assert(frags0 == old(self).fragments.sets@);
        }
        let payload = match &frame.split {
            Some(si) => {
                match self.fragments.insert(si.id, si.count, si.index, frame.payload, now) {
                    Some(message) => message,
                    None => {
                        proof {
                            assert(crate::fragment::insert_effect(
                                old(self).fragments.sets@,
                                self.fragments.sets@,
                                si.id,
                                si.count,
                                si.index,
                                frame@.payload,
                                now,
                                None::<Seq<u8>>,
                            ));
                            assert(self.sequence_in@ == old(self).sequence_in@);
                            assert(self.order_in@ == old(self).order_in@);
                        }
                        return Vec::new();
                    },
                }
            },
            None => frame.payload,
        };
        let ghost pl = payload@;
        proof {
            if frame@.split is None {
                assert(pl == frame@.payload);
            }
        }
        let ghost frags_after = self.fragments.sets@;
        proof {
            if frame@.split is Some {
                let si = frame@.split->Some_0;
                assert(crate::fragment::insert_effect(
                    old(self).fragments.sets@,
                    frags_after,
                    si.id,
                    si.count,
                    si.index,
                    frame@.payload,
                    now,
                    Some(pl),
                ));
            }
        }
        let produced = match frame.reliability {
            Reliability::Unreliable | Reliability::Reliable => {
                let mut out: Vec<Vec<u8>> = Vec::new();
                out.push(payload);
                proof {
                    assert(out.deep_view() =~~= seq![pl]);
                }
                out
            },
            Reliability::UnreliableSequenced | Reliability::ReliableSequenced => {
                let (index, channel) = match (&frame.sequence_index, &frame.order) {
                    (Some(idx), Some(oi)) => (*idx, oi.channel),
                    _ => (0u32, 0u8),
                };
                if (channel as usize) < CHANNEL_COUNT {
                    let ghost lanes0 = self.sequence_in@;
                    let mut lane = self.sequence_in.remove(channel as usize);
                    let accepted = lane.accept(index);
                    self.sequence_in.insert(channel as usize, lane);
                    proof {
                        let ch = channel as int;
                        assert(lanes0 == old(self).sequence_in@);
                        assert forall|j: int| 0 <= j < self.sequence_in@.len() implies
                            self.sequence_in@[j] == lanes0.update(ch, self.sequence_in@[ch])[j] by {
                            if j < ch {
                            } else if j == ch {
                            } else {
                            }
                        }
                        assert(self.sequence_in@ =~= lanes0.update(ch, self.sequence_in@[ch]));
                        assert(forall|i: int|
                            0 <= i < CHANNEL_COUNT ==> (#[trigger] self.sequence_in@[i]).wf());
                    }
                    if accepted {
                        let mut out: Vec<Vec<u8>> = Vec::new();
                        out.push(payload);
                        proof {
                            assert(out.deep_view() =~~= seq![pl]);
                        }
                        out
                    } else {
                        Vec::new()
                    }
                } else {
                    Vec::new()
                }
            },
            Reliability::ReliableOrdered => {
                let (index, channel) = match &frame.order {
                    Some(oi) => (oi.index, oi.channel),
                    None => (0u32, 0u8),
                };
                if (channel as usize) < CHANNEL_COUNT {
                    let ghost lanes0 = self.order_in@;
                    let mut lane = self.order_in.remove(channel as usize);
                    let out = lane.receive(index, payload);
                    self.order_in.insert(channel as usize, lane);
                    proof {
                        let ch = channel as int;
                        assert(lanes0 == old(self).order_in@);
                        assert forall|j: int| 0 <= j < self.order_in@.len() implies
                            self.order_in@[j] == lanes0.update(ch, self.order_in@[ch])[j] by {
                            if j < ch {
                            } else if j == ch {
                            } else {
                            }
                        }
                        assert(self.order_in@ =~= lanes0.update(ch, self.order_in@[ch]));
                        assert(forall|i: int|
                            0 <= i < CHANNEL_COUNT ==> (#[trigger] self.order_in@[i]).wf());
                    }
                    out
                } else {
                    Vec::new()
                }
            },
        };
        proof {
            assert(self.fragments.sets@ == frags_after);
            if frame@.split is Some {
                let si = frame@.split->Some_0;
                assert(crate::fragment::insert_effect(
                    old(self).fragments.sets@,
                    self.fragments.sets@,
                    si.id,
                    si.count,
                    si.index,
                    frame@.payload,
                    now,
                    Some(pl),
                ));
            }
        }
        produced
    }

    /// Applies one acknowledgment record: every tracked datagram number in
    /// the inclusive range is removed from the recovery queue, and every
    /// entry outside it keeps its send time and frames untouched.
    #[verifier::loop_isolation(false)]
    pub fn handle_ack_record(&mut self, record: AckRecord)
        requires
            old(self).wf(),
            crate::protocol::frame::record_wf(record),
        ensures
            final(self).wf(),
            forall|x: u32|
                #![trigger crate::recovery::rq_has(final(self).recovery.entries@, x)]
                crate::recovery::rq_has(final(self).recovery.entries@, x) == (crate::recovery::rq_has(
                    old(self).recovery.entries@,
                    x,
                ) && !(record.start <= x <= record.end)),
            forall|x: u32|
                #![trigger crate::recovery::rq_frames(final(self).recovery.entries@, x)]
                #![trigger crate::recovery::rq_has(final(self).recovery.entries@, x)]
                crate::recovery::rq_has(final(self).recovery.entries@, x)
                    ==> crate::recovery::rq_sent(final(self).recovery.entries@, x)
                    == crate::recovery::rq_sent(old(self).recovery.entries@, x)
                    && crate::recovery::rq_frames(final(self).recovery.entries@, x)
                    == crate::recovery::rq_frames(old(self).recovery.entries@, x),
            *final(self) == (Connection { recovery: final(self).recovery, ..*old(self) }),
    {
        let mut x = record.start;
        let mut done = false;
        while !done
            invariant
                record.start <= x <= record.end,
                done ==> x == record.end,
                self.recovery.wf(),
                *self == (Connection { recovery: self.recovery, ..*old(self) }),
                forall|y: u32|
                    #![trigger crate::recovery::rq_has(self.recovery.entries@, y)]
                    crate::recovery::rq_has(self.recovery.entries@, y) == (crate::recovery::rq_has(
                        old(self).recovery.entries@,
                        y,
                    ) && !(record.start <= y && (y < x || (done && y <= x)))),
                forall|y: u32|
                    #![trigger crate::recovery::rq_frames(self.recovery.entries@, y)]
                    #![trigger crate::recovery::rq_has(self.recovery.entries@, y)]
                    crate::recovery::rq_has(self.recovery.entries@, y)
                        ==> crate::recovery::rq_sent(self.recovery.entries@, y)
                        == crate::recovery::rq_sent(old(self).recovery.entries@, y)
                        && crate::recovery::rq_frames(self.recovery.entries@, y)
                        == crate::recovery::rq_frames(old(self).recovery.entries@, y),
            decreases record.end - x, (if done { 0int } else { 1int }),
        {
            let ghost pre = self.recovery.entries@;
            self.recovery.ack(x);
            proof {
                assert forall|y: u32|
                    crate::recovery::rq_has(self.recovery.entries@, y) implies crate::recovery::rq_sent(
                    self.recovery.entries@,
                    y,
                ) == crate::recovery::rq_sent(old(self).recovery.entries@, y)
                    && (#[trigger] crate::recovery::rq_frames(self.recovery.entries@, y))
                    == crate::recovery::rq_frames(old(self).recovery.entries@, y) by {
                    assert(y != x);
                    assert(crate::recovery::rq_has(pre, y));
                    assert(crate::recovery::rq_frames(pre, y) == crate::recovery::rq_frames(
                        old(self).recovery.entries@,
                        y,
                    ));
                }
            }
            if x == record.end {
                done = true;
            } else {
                x = x + 1;
            }
        }
    }

    /// Applies one negative-acknowledgment record: every tracked datagram
    /// number in the range leaves the queue and its frames come back for
    /// immediate resend under fresh datagram numbers — each tracked number
    /// once, in ascending order; entries outside the range stay untouched.
    #[verifier::loop_isolation(false)]
    #[verifier::rlimit(100)]
    pub fn handle_nack_record(&mut self, record: AckRecord) -> (r: Vec<
        Vec<Vec<u8>>,
    >)
        requires
            old(self).wf(),
            crate::protocol::frame::record_wf(record),
        ensures
            final(self).wf(),
            forall|x: u32|
                #![trigger crate::recovery::rq_has(final(self).recovery.entries@, x)]
                crate::recovery::rq_has(final(self).recovery.entries@, x) == (crate::recovery::rq_has(
                    old(self).recovery.entries@,
                    x,
                ) && !(record.start <= x <= record.end)),
            forall|x: u32|
                #![trigger crate::recovery::rq_frames(final(self).recovery.entries@, x)]
                #![trigger crate::recovery::rq_has(final(self).recovery.entries@, x)]
                crate::recovery::rq_has(final(self).recovery.entries@, x)
                    ==> crate::recovery::rq_sent(final(self).recovery.entries@, x)
                    == crate::recovery::rq_sent(old(self).recovery.entries@, x)
                    && crate::recovery::rq_frames(final(self).recovery.entries@, x)
                    == crate::recovery::rq_frames(old(self).recovery.entries@, x),
            r.deep_view() == crate::recovery::spec_resend_frames(
                old(self).recovery.entries@,
                record.start as int,
                record.end as int,
            ),
            *final(self) == (Connection { recovery: final(self).recovery, ..*old(self) }),
    {
        let ghost es0 = old(self).recovery.entries@;
        let mut r: Vec<Vec<Vec<u8>>> = Vec::new();
        let mut x = record.start;
        let mut done = false;
        while !done
            invariant
                record.start <= x <= record.end,
                done ==> x == record.end,
                self.recovery.wf(),
                *self == (Connection { recovery: self.recovery, ..*old(self) }),
                forall|y: u32|
                    #![trigger crate::recovery::rq_has(self.recovery.entries@, y)]
                    crate::recovery::rq_has(self.recovery.entries@, y) == (crate::recovery::rq_has(
                        es0,
                        y,
                    ) && !(record.start <= y && (y < x || (done && y <= x)))),
                forall|y: u32|
                    #![trigger crate::recovery::rq_frames(self.recovery.entries@, y)]
                    #![trigger crate::recovery::rq_has(self.recovery.entries@, y)]
                    crate::recovery::rq_has(self.recovery.entries@, y)
                        ==> crate::recovery::rq_sent(self.recovery.entries@, y)
                        == crate::recovery::rq_sent(es0, y) && crate::recovery::rq_frames(
                        self.recovery.entries@,
                        y,
                    ) == crate::recovery::rq_frames(es0, y),
                r.deep_view() == crate::recovery::spec_resend_frames(
                    es0,
                    record.start as int,
                    if done {
                        x as int
                    } else {
                        x as int - 1
                    },
                ),
            decreases record.end - x, (if done { 0int } else { 1int }),
        {
            let ghost pre = self.recovery.entries@;
            let ghost pre_r = r.deep_view();
            let frames = self.recovery.nack(x);
            proof {
                crate::recovery::lemma_resend_frames_snoc(es0, record.start as int, x as int);
                assert(crate::recovery::rq_has(pre, x) == crate::recovery::rq_has(es0, x));
            }
            match frames {
                Some(fs) => {
                    proof {
                        assert(crate::recovery::rq_frames(pre, x) == crate::recovery::rq_frames(
                            es0,
                            x,
                        ));
                        assert(fs.deep_view() == crate::recovery::rq_frames(es0, x));
                    }
                    r.push(fs);
                    proof {
                        assert(r.deep_view() =~~= pre_r.push(crate::recovery::rq_frames(es0, x)));
                        assert(pre_r.push(crate::recovery::rq_frames(es0, x))
                            =~= pre_r + seq![crate::recovery::rq_frames(es0, x)]);
                    }
                },
                None => {
                    proof {
                        assert(!crate::recovery::rq_has(es0, x));
                        assert(pre_r + Seq::<Seq<Seq<u8>>>::empty() =~= pre_r);
                    }
                },
            }
            proof {
                assert forall|y: u32|
                    crate::recovery::rq_has(self.recovery.entries@, y) implies crate::recovery::rq_sent(
                    self.recovery.entries@,
                    y,
                ) == crate::recovery::rq_sent(es0, y) && (#[trigger] crate::recovery::rq_frames(
                    self.recovery.entries@,
                    y,
                )) == crate::recovery::rq_frames(es0, y) by {
                    assert(y != x);
                    assert(crate::recovery::rq_has(pre, y));
                    assert(crate::recovery::rq_frames(pre, y) == crate::recovery::rq_frames(
                        es0,
                        y,
                    ));
                }
            }
            if x == record.end {
                done = true;
            } else {
                x = x + 1;
            }
        }
        r
    }

    /// The most sequence numbers one gap may enqueue for negative
    /// acknowledgment; a larger jump only advances the cursor.
    pub const MAX_NACK_GAP: u32 = 64;

    /// Records an arrived data datagram's sequence number for the next
    /// acknowledgment flush. A number ahead of the newest seen enqueues the
    /// skipped numbers for negative acknowledgment (gaps are presumed lost)
    /// and advances the cursor; a number that was presumed lost is taken
    /// back off the missing list.
    #[verifier::loop_isolation(false)]
    #[verifier::rlimit(100)]
    pub fn record_incoming(&mut self, sequence: u32)
        requires
            old(self).wf(),
            sequence < INDEX_SPACE,
        ensures
            final(self).wf(),
            final(self).ack_queue@ == old(self).ack_queue@.push(sequence),
            !old(self).receiving ==> final(self).receiving && final(self).highest_in == sequence
                && final(self).nack_queue@ == old(self).nack_queue@,
            old(self).receiving && crate::order::spec_newer(sequence, old(self).highest_in) ==> {
                let gap = crate::order::spec_circ_diff(sequence, old(self).highest_in);
                &&& final(self).highest_in == sequence
                &&& (gap <= Self::MAX_NACK_GAP + 1 ==> final(self).nack_queue@ == old(
                    self,
                ).nack_queue@ + Seq::new(
                    (gap - 1) as nat,
                    |k: int| crate::order::spec_add_mod(old(self).highest_in, (k + 1) as nat),
                ))
                &&& (gap > Self::MAX_NACK_GAP + 1 ==> final(self).nack_queue@ == old(
                    self,
                ).nack_queue@)
            },
            old(self).receiving && !crate::order::spec_newer(sequence, old(self).highest_in)
                ==> final(self).highest_in == old(self).highest_in && final(self).nack_queue@
                == old(self).nack_queue@.filter(|x: u32| x != sequence),
    {
        if !self.receiving {
            self.receiving = true;
            self.highest_in = sequence;
        } else if newer_than(sequence, self.highest_in) {
            let ghost base = self.highest_in;
            let ghost pre_nacks = self.nack_queue@;
            let gap = if sequence >= self.highest_in {
                sequence - self.highest_in
            } else {
                sequence + INDEX_SPACE - self.highest_in
            };
            proof {
                assert(gap == crate::order::spec_circ_diff(sequence, base));
            }
            if gap <= Self::MAX_NACK_GAP + 1 {
                let mut missing = next_index(self.highest_in);
                let mut k: u32 = 0;
                proof {
                    crate::order::lemma_add_mod_steps(base, 1);
                }
                while k + 1 < gap
                    invariant
                        k < gap,
                        missing == crate::order::spec_add_mod(base, (k + 1) as nat),
                        missing < INDEX_SPACE,
                        self.nack_queue@ == pre_nacks + Seq::new(
                            k as nat,
                            |j: int| crate::order::spec_add_mod(base, (j + 1) as nat),
                        ),
                        *self == (Connection {
                            nack_queue: self.nack_queue,
                            ..*old(self)
                        }),
                    decreases gap - k,
                {
                    self.nack_queue.push(missing);
                    proof {
                        crate::order::lemma_add_mod_steps(base, (k + 2) as nat);
                        assert(self.nack_queue@ =~= pre_nacks + Seq::new(
                            (k + 1) as nat,
                            |j: int| crate::order::spec_add_mod(base, (j + 1) as nat),
                        ));
                    }
                    missing = next_index(missing);
                    k = k + 1;
                }
                proof {
                    assert(k + 1 == gap);
                    assert forall|i: int|
                        0 <= i < self.nack_queue@.len() implies (#[trigger] self.nack_queue@[i])
                        < INDEX_SPACE by {
                        if i >= pre_nacks.len() {
                            crate::order::lemma_add_mod_steps(
                                base,
                                (i - pre_nacks.len() + 1) as nat,
                            );
                        }
                    }
                }
            }
            self.highest_in = sequence;
        } else {
            let ghost pre = self.nack_queue@;
            let mut kept: Vec<u32> = Vec::new();
            let mut i: usize = 0;
            while i < self.nack_queue.len()
                invariant
                    i <= self.nack_queue@.len(),
                    self.nack_queue@ == pre,
                    kept@ == pre.take(i as int).filter(|x: u32| x != sequence),
                    forall|j: int| 0 <= j < kept@.len() ==> (#[trigger] kept@[j]) < INDEX_SPACE,
                decreases self.nack_queue@.len() - i,
            {
                let v = self.nack_queue[i];
                proof {
                    reveal_with_fuel(Seq::filter, 2);
                    assert(pre.take(i as int + 1).drop_last() =~= pre.take(i as int));
                    assert(pre.take(i as int + 1).last() == pre[i as int]);
                }
                if v != sequence {
                    kept.push(v);
                }
                i = i + 1;
            }
            proof {
                assert(pre.take(pre.len() as int) =~= pre);
            }
            self.nack_queue = kept;
        }
        self.ack_queue.push(sequence);
    }

    /// Empties the acknowledgment queue into one record per received
    /// sequence number, for the next outgoing ACK datagram.
    #[verifier::loop_isolation(false)]
    pub fn take_acks(&mut self) -> (r: Vec<AckRecord>)
        requires
            old(self).wf(),
        ensures
            final(self).wf(),
            final(self).ack_queue@.len() == 0,
            r@.len() == old(self).ack_queue@.len(),
            forall|i: int|
                0 <= i < r@.len() ==> (#[trigger] r@[i]) == (AckRecord {
                    start: old(self).ack_queue@[i],
                    end: old(self).ack_queue@[i],
                }),
            *final(self) == (Connection { ack_queue: final(self).ack_queue, ..*old(self) }),
    {
        let mut r: Vec<AckRecord> = Vec::new();
        let mut i: usize = 0;
        while i < self.ack_queue.len()
            invariant
                i <= self.ack_queue@.len(),
                self.ack_queue@ == old(self).ack_queue@,
                r@.len() == i,
                forall|j: int|
                    0 <= j < i ==> (#[trigger] r@[j]) == (AckRecord {
                        start: old(self).ack_queue@[j],
                        end: old(self).ack_queue@[j],
                    }),
                *self == *old(self),
            decreases self.ack_queue@.len() - i,
        {
            let s = self.ack_queue[i];
            r.push(AckRecord { start: s, end: s });
            i = i + 1;
        }
        self.ack_queue.clear();
        r
    }

    /// Empties the missing list into one record per presumed-lost sequence
    /// number, for the next outgoing NACK datagram.
    #[verifier::loop_isolation(false)]
    pub fn take_nacks(&mut self) -> (r: Vec<AckRecord>)
        requires
            old(self).wf(),
        ensures
            final(self).wf(),
            final(self).nack_queue@.len() == 0,
            r@.len() == old(self).nack_queue@.len(),
            forall|i: int|
                0 <= i < r@.len() ==> (#[trigger] r@[i]) == (AckRecord {
                    start: old(self).nack_queue@[i],
                    end: old(self).nack_queue@[i],
                }),
            *final(self) == (Connection { nack_queue: final(self).nack_queue, ..*old(self) }),
    {
        let mut r: Vec<AckRecord> = Vec::new();
        let mut i: usize = 0;
        while i < self.nack_queue.len()
            invariant
                i <= self.nack_queue@.len(),
                self.nack_queue@ == old(self).nack_queue@,
                r@.len() == i,
                forall|j: int|
                    0 <= j < i ==> (#[trigger] r@[j]) == (AckRecord {
                        start: old(self).nack_queue@[j],
                        end: old(self).nack_queue@[j],
                    }),
                *self == *old(self),
            decreases self.nack_queue@.len() - i,
        {
            let s = self.nack_queue[i];
            r.push(AckRecord { start: s, end: s });
            i = i + 1;
        }
        self.nack_queue.clear();
        r
    }
}

} // verus!