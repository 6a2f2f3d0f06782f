//! The offline (unconnected) packets: discovery ping/pong and the two
//! open-connection phases that negotiate the MTU. Every offline packet
//! carries the sixteen-byte magic sentinel; decoding rejects bytes without
//! it. Encoding and decoding are exact inverses on well-formed packets.

use vstd::prelude::*;

use crate::error::RakNetError;
use crate::protocol::wire::{
    lemma_address_round_trip, lemma_u16_be_round_trip, lemma_u64_be_round_trip, magic_matches,
    push_address, push_bytes, push_magic, push_u16_be, push_u64_be, push_zeros, read_address,
    read_bytes, read_u16_be, read_u64_be, spec_address, spec_address_from, spec_magic,
    spec_u16_be, spec_u16_from_be, spec_u64_be, spec_u64_from_be, Address,
};

verus! {

pub const ID_UNCONNECTED_PING: u8 = 0x01;

pub const ID_UNCONNECTED_PONG: u8 = 0x1c;

pub const ID_OPEN_CONNECT_REQUEST_1: u8 = 0x05;

pub const ID_OPEN_CONNECT_REPLY_1: u8 = 0x06;

pub const ID_OPEN_CONNECT_REQUEST_2: u8 = 0x07;

pub const ID_OPEN_CONNECT_REPLY_2: u8 = 0x08;

/// The smallest MTU an open-connection request can announce: the request
/// itself must fit its 18 header bytes plus the 28-byte transport overhead
/// counted by MTU discovery.
pub const MIN_MTU: u16 = 46;

/// An offline packet, decoded. The pong carries the encoded server
/// description as raw bytes.
#[derive(Debug, Clone, PartialEq)]
pub enum OfflinePacket {
    UnconnectedPing { time: u64, client_guid: u64 },
    UnconnectedPong { time: u64, server_guid: u64, motd: Vec<u8> },
    OpenConnectRequest1 { protocol: u8, mtu: u16 },
    OpenConnectReply1 { server_guid: u64, mtu: u16 },
    OpenConnectRequest2 { server_address: Address, mtu: u16, client_guid: u64 },
    OpenConnectReply2 { server_guid: u64, client_address: Address, mtu: u16 },
}

/// The mathematical content of an offline packet.
pub enum OfflinePacketView {
    UnconnectedPing { time: u64, client_guid: u64 },
    UnconnectedPong { time: u64, server_guid: u64, motd: Seq<u8> },
    OpenConnectRequest1 { protocol: u8, mtu: u16 },
    OpenConnectReply1 { server_guid: u64, mtu: u16 },
    OpenConnectRequest2 { server_address: Address, mtu: u16, client_guid: u64 },
    OpenConnectReply2 { server_guid: u64, client_address: Address, mtu: u16 },
}

impl View for OfflinePacket {
    type V = OfflinePacketView;

    open spec fn view(&self) -> OfflinePacketView {
        match self {
            OfflinePacket::UnconnectedPing { time, client_guid } => OfflinePacketView::UnconnectedPing {
                time: *time,
                client_guid: *client_guid,
            },
            OfflinePacket::UnconnectedPong { time, server_guid, motd } => OfflinePacketView::UnconnectedPong {
                time: *time,
                server_guid: *server_guid,
                motd: motd@,
            },
            OfflinePacket::OpenConnectRequest1 { protocol, mtu } => OfflinePacketView::OpenConnectRequest1 {
                protocol: *protocol,
                mtu: *mtu,
            },
            OfflinePacket::OpenConnectReply1 { server_guid, mtu } => OfflinePacketView::OpenConnectReply1 {
                server_guid: *server_guid,
                mtu: *mtu,
            },
            OfflinePacket::OpenConnectRequest2 { server_address, mtu, client_guid } => OfflinePacketView::OpenConnectRequest2 {
                server_address: *server_address,
                mtu: *mtu,
                client_guid: *client_guid,
            },
            OfflinePacket::OpenConnectReply2 { server_guid, client_address, mtu } => OfflinePacketView::OpenConnectReply2 {
                server_guid: *server_guid,
                client_address: *client_address,
                mtu: *mtu,
            },
        }
    }
}

/// Well-formedness: the description fits its 16-bit length prefix, and an
/// announced MTU leaves room for the request's own header and overhead.
pub open spec fn offline_wf(p: OfflinePacketView) -> bool {
    match p {
        OfflinePacketView::UnconnectedPong { motd, .. } => motd.len() <= 0xffff,
        OfflinePacketView::OpenConnectRequest1 { mtu, .. } => MIN_MTU <= mtu,
        _ => true,
    }
}

/// The exact bytes of an offline packet.
pub open spec fn spec_encode_offline(p: OfflinePacketView) -> Seq<u8> {
    match p {
        OfflinePacketView::UnconnectedPing { time, client_guid } => seq![ID_UNCONNECTED_PING]
            + spec_u64_be(time) + spec_magic() + spec_u64_be(client_guid),
        OfflinePacketView::UnconnectedPong { time, server_guid, motd } => seq![ID_UNCONNECTED_PONG]
            + spec_u64_be(time) + spec_u64_be(server_guid) + spec_magic() + spec_u16_be(
            motd.len() as u16,
        ) + motd,
        OfflinePacketView::OpenConnectRequest1 { protocol, mtu } => seq![ID_OPEN_CONNECT_REQUEST_1]
            + spec_magic() + seq![protocol] + Seq::new((mtu - MIN_MTU) as nat, |i: int| 0u8),
        OfflinePacketView::OpenConnectReply1 { server_guid, mtu } => seq![ID_OPEN_CONNECT_REPLY_1]
            + spec_magic() + spec_u64_be(server_guid) + seq![0u8] + spec_u16_be(mtu),
        OfflinePacketView::OpenConnectRequest2 { server_address, mtu, client_guid } => seq![
            ID_OPEN_CONNECT_REQUEST_2,
        ] + spec_magic() + spec_address(server_address) + spec_u16_be(mtu) + spec_u64_be(
            client_guid,
        ),
        OfflinePacketView::OpenConnectReply2 { server_guid, client_address, mtu } => seq![
            ID_OPEN_CONNECT_REPLY_2,
        ] + spec_magic() + spec_u64_be(server_guid) + spec_address(client_address) + spec_u16_be(
            mtu,
        ) + seq![0u8],
    }
}

/// Decoding of an offline packet: the unique packet whose encoding is `b`,
/// or nothing when `b` encodes none.
pub open spec fn spec_decode_offline(b: Seq<u8>) -> Option<OfflinePacketView> {
    if b.len() < 1 {
        None
    } else if b[0] == ID_UNCONNECTED_PING {
        if b.len() == 33 && b.subrange(9, 25) == spec_magic() {
            Some(
                OfflinePacketView::UnconnectedPing {
                    time: spec_u64_from_be(b.subrange(1, 9)),
                    client_guid: spec_u64_from_be(b.subrange(25, 33)),
                },
            )
        } else {
            None
        }
    } else if b[0] == ID_UNCONNECTED_PONG {
        if b.len() >= 35 && b.subrange(17, 33) == spec_magic() && spec_u16_from_be(
            b.subrange(33, 35),
        ) as int == b.len() - 35 {
            Some(
                OfflinePacketView::UnconnectedPong {
                    time: spec_u64_from_be(b.subrange(1, 9)),
                    server_guid: spec_u64_from_be(b.subrange(9, 17)),
                    motd: b.subrange(35, b.len() as int),
                },
            )
        } else {
            None
        }
    } else if b[0] == ID_OPEN_CONNECT_REQUEST_1 {
        if b.len() >= 18 && b.len() + 28 <= 0xffff && b.subrange(1, 17) == spec_magic() {
            Some(
                OfflinePacketView::OpenConnectRequest1 {
                    protocol: b[17],
                    mtu: (b.len() + 28) as u16,
                },
            )
        } else {
            None
        }
    } else if b[0] == ID_OPEN_CONNECT_REPLY_1 {
        if b.len() == 28 && b.subrange(1, 17) == spec_magic() {
            Some(
                OfflinePacketView::OpenConnectReply1 {
                    server_guid: spec_u64_from_be(b.subrange(17, 25)),
                    mtu: spec_u16_from_be(b.subrange(26, 28)),
                },
            )
        } else {
            None
        }
    } else if b[0] == ID_OPEN_CONNECT_REQUEST_2 {
        if b.len() == 34 && b.subrange(1, 17) == spec_magic() && spec_address_from(
            b.subrange(17, 24),
        ) is Some {
            Some(
                OfflinePacketView::OpenConnectRequest2 {
                    server_address: spec_address_from(b.subrange(17, 24))->Some_0,
                    mtu: spec_u16_from_be(b.subrange(24, 26)),
                    client_guid: spec_u64_from_be(b.subrange(26, 34)),
                },
            )
        } else {
            None
        }
    } else if b[0] == ID_OPEN_CONNECT_REPLY_2 {
        if b.len() == 35 && b.subrange(1, 17) == spec_magic() && spec_address_from(
            b.subrange(25, 32),
        ) is Some {
            Some(
                OfflinePacketView::OpenConnectReply2 {
                    server_guid: spec_u64_from_be(b.subrange(17, 25)),
                    client_address: spec_address_from(b.subrange(25, 32))->Some_0,
                    mtu: spec_u16_from_be(b.subrange(32, 34)),
                },
            )
        } else {
            None
        }
    } else {
        None
    }
}

/// Encoding then decoding gives the packet back: the codec loses nothing.
pub proof fn lemma_offline_round_trip(p: OfflinePacketView)
    requires
        offline_wf(p),
    ensures
        spec_decode_offline(spec_encode_offline(p)) == Some(p),
{
    let b = spec_encode_offline(p);
    match p {
        OfflinePacketView::UnconnectedPing { time, client_guid } => {
            lemma_u64_be_round_trip(time);
            lemma_u64_be_round_trip(client_guid);
            assert(b.len() == 33);
            assert(b[0] == ID_UNCONNECTED_PING);
            assert(b.subrange(1, 9) =~= spec_u64_be(time));
            assert(b.subrange(9, 25) =~= spec_magic());
            assert(b.subrange(25, 33) =~= spec_u64_be(client_guid));
        },
        OfflinePacketView::UnconnectedPong { time, server_guid, motd } => {
            lemma_u64_be_round_trip(time);
            lemma_u64_be_round_trip(server_guid);
            lemma_u16_be_round_trip(motd.len() as u16);
            assert(b.len() == 35 + motd.len());
            assert(b[0] == ID_UNCONNECTED_PONG);
            assert(b.subrange(1, 9) =~= spec_u64_be(time));
            assert(b.subrange(9, 17) =~= spec_u64_be(server_guid));
            assert(b.subrange(17, 33) =~= spec_magic());
            assert(b.subrange(33, 35) =~= spec_u16_be(motd.len() as u16));
            assert(b.subrange(35, b.len() as int) =~= motd);
        },
        OfflinePacketView::OpenConnectRequest1 { protocol, mtu } => {
            assert(b.len() == 18 + (mtu - MIN_MTU));
            assert(b[0] == ID_OPEN_CONNECT_REQUEST_1);
            assert(b.subrange(1, 17) =~= spec_magic());
            assert(b[17] == protocol);
            assert(b.len() + 28 == mtu);
        },
        OfflinePacketView::OpenConnectReply1 { server_guid, mtu } => {
            lemma_u64_be_round_trip(server_guid);
            lemma_u16_be_round_trip(mtu);
            assert(b.len() == 28);
            assert(b[0] == ID_OPEN_CONNECT_REPLY_1);
            assert(b.subrange(1, 17) =~= spec_magic());
            assert(b.subrange(17, 25) =~= spec_u64_be(server_guid));
            assert(b.subrange(26, 28) =~= spec_u16_be(mtu));
        },
        OfflinePacketView::OpenConnectRequest2 { server_address, mtu, client_guid } => {
            lemma_address_round_trip(server_address);
            lemma_u16_be_round_trip(mtu);
            lemma_u64_be_round_trip(client_guid);
            assert(b.len() == 34);
            assert(b[0] == ID_OPEN_CONNECT_REQUEST_2);
            assert(b.subrange(1, 17) =~= spec_magic());
            assert(b.subrange(17, 24) =~= spec_address(server_address));
            assert(b.subrange(24, 26) =~= spec_u16_be(mtu));
            assert(b.subrange(26, 34) =~= spec_u64_be(client_guid));
        },
        OfflinePacketView::OpenConnectReply2 { server_guid, client_address, mtu } => {
            lemma_address_round_trip(client_address);
            lemma_u16_be_round_trip(mtu);
            lemma_u64_be_round_trip(server_guid);
            assert(b.len() == 35);
            assert(b[0] == ID_OPEN_CONNECT_REPLY_2);
            assert(b.subrange(1, 17) =~= spec_magic());
            assert(b.subrange(17, 25) =~= spec_u64_be(server_guid));
            assert(b.subrange(25, 32) =~= spec_address(client_address));
            assert(b.subrange(32, 34) =~= spec_u16_be(mtu));
        },
    }
}

impl OfflinePacket {
    /// Encodes the packet to its exact wire bytes.
    pub fn encode(&self) -> (r: Vec<u8>)
        requires
            offline_wf(self@),
        ensures
            r@ == spec_encode_offline(self@),
    {
        let mut out: Vec<u8> = Vec::new();
        match self {
            OfflinePacket::UnconnectedPing { time, client_guid } => {
                out.push(ID_UNCONNECTED_PING);
                push_u64_be(&mut out, *time);
                push_magic(&mut out);
                push_u64_be(&mut out, *client_guid);
                assert(out@ =~= spec_encode_offline(self@));
            },
            OfflinePacket::UnconnectedPong { time, server_guid, motd } => {
                out.push(ID_UNCONNECTED_PONG);
                push_u64_be(&mut out, *time);
                push_u64_be(&mut out, *server_guid);
                push_magic(&mut out);
                push_u16_be(&mut out, motd.len() as u16);
                push_bytes(&mut out, motd);
                assert(out@ =~= spec_encode_offline(self@));
            },
            OfflinePacket::OpenConnectRequest1 { protocol, mtu } => {
                out.push(ID_OPEN_CONNECT_REQUEST_1);
                push_magic(&mut out);
                out.push(*protocol);
                push_zeros(&mut out, (*mtu - MIN_MTU) as usize);
                assert(out@ =~= spec_encode_offline(self@));
            },
            OfflinePacket::OpenConnectReply1 { server_guid, mtu } => {
                out.push(ID_OPEN_CONNECT_REPLY_1);
                push_magic(&mut out);
                push_u64_be(&mut out, *server_guid);
                out.push(0u8);
                push_u16_be(&mut out, *mtu);
                assert(out@ =~= spec_encode_offline(self@));
            },
            OfflinePacket::OpenConnectRequest2 { server_address, mtu, client_guid } => {
                out.push(ID_OPEN_CONNECT_REQUEST_2);
                push_magic(&mut out);
                push_address(&mut out, server_address);
                push_u16_be(&mut out, *mtu);
                push_u64_be(&mut out, *client_guid);
                assert(out@ =~= spec_encode_offline(self@));
            },
            OfflinePacket::OpenConnectReply2 { server_guid, client_address, mtu } => {
                out.push(ID_OPEN_CONNECT_REPLY_2);
                push_magic(&mut out);
                push_u64_be(&mut out, *server_guid);
                push_address(&mut out, client_address);
                push_u16_be(&mut out, *mtu);
                out.push(0u8);
                assert(out@ =~= spec_encode_offline(self@));
            },
        }
        out
    }

    /// Decodes an offline packet; truncated bytes, a wrong length, or a
    /// missing magic sentinel give `MalformedPacket` and nothing else does.
    pub fn decode(buffer: &Vec<u8>) -> (r: Result<OfflinePacket, RakNetError>)
        ensures
            match r {
                Ok(p) => spec_decode_offline(buffer@) == Some(p@),
                Err(e) => spec_decode_offline(buffer@) is None && e
                    == RakNetError::MalformedPacket,
            },
    {
        let n = buffer.len();
        if n < 1 {
            return Err(RakNetError::MalformedPacket);
        }
        let id = buffer[0];
        if id == ID_UNCONNECTED_PING {
            if n == 33 && magic_matches(buffer, 9) {
                let time = read_u64_be(buffer, 1);
                let client_guid = read_u64_be(buffer, 25);
                Ok(OfflinePacket::UnconnectedPing { time, client_guid })
            } else {
                Err(RakNetError::MalformedPacket)
            }
        } else if id == ID_UNCONNECTED_PONG {
            if n >= 35 && magic_matches(buffer, 17) {
                let prefix = read_u16_be(buffer, 33);
                if prefix as usize == n - 35 {
                    let time = read_u64_be(buffer, 1);
                    let server_guid = read_u64_be(buffer, 9);
                    let motd = read_bytes(buffer, 35, n);
                    Ok(OfflinePacket::UnconnectedPong { time, server_guid, motd })
                } else {
                    Err(RakNetError::MalformedPacket)
                }
            } else {
                Err(RakNetError::MalformedPacket)
            }
        } else if id == ID_OPEN_CONNECT_REQUEST_1 {
            if n >= 18 && n <= 0xffff - 28 && magic_matches(buffer, 1) {
                let protocol = buffer[17];
                let mtu = (n + 28) as u16;
                Ok(OfflinePacket::OpenConnectRequest1 { protocol, mtu })
            } else {
                Err(RakNetError::MalformedPacket)
            }
        } else if id == ID_OPEN_CONNECT_REPLY_1 {
            if n == 28 && magic_matches(buffer, 1) {
                let server_guid = read_u64_be(buffer, 17);
                let mtu = read_u16_be(buffer, 26);
                Ok(OfflinePacket::OpenConnectReply1 { server_guid, mtu })
            } else {
                Err(RakNetError::MalformedPacket)
            }
        } else if id == ID_OPEN_CONNECT_REQUEST_2 {
            if n == 34 && magic_matches(buffer, 1) {
                match read_address(buffer, 17) {
                    Some(server_address) => {
                        let mtu = read_u16_be(buffer, 24);
                        let client_guid = read_u64_be(buffer, 26);
                        Ok(OfflinePacket::OpenConnectRequest2 { server_address, mtu, client_guid })
                    },
                    None => Err(RakNetError::MalformedPacket),
                }
            } else {
                Err(RakNetError::MalformedPacket)
            }
        } else if id == ID_OPEN_CONNECT_REPLY_2 {
            if n == 35 && magic_matches(buffer, 1) {
                match read_address(buffer, 25) {
                    Some(client_address) => {
                        let server_guid = read_u64_be(buffer, 17);
                        let mtu = read_u16_be(buffer, 32);
                        Ok(OfflinePacket::OpenConnectReply2 { server_guid, client_address, mtu })
                    },
                    None => Err(RakNetError::MalformedPacket),
                }
            } else {
                Err(RakNetError::MalformedPacket)
            }
        } else {
            Err(RakNetError::MalformedPacket)
        }
    }
}

} // verus!
