//! The online (connected) session packets carried as frame payloads inside
//! data datagrams: keep-alive ping/pong, the connection request and accept
//! of the handshake, the new-incoming-connection notice, and disconnect.

use vstd::prelude::*;

use crate::error::RakNetError;
use crate::protocol::wire::{
    lemma_address_round_trip, lemma_u64_be_round_trip, push_address, push_u64_be, read_address,
    read_u64_be, spec_address, spec_address_from, spec_u64_be, spec_u64_from_be, Address,
};

verus! {

pub const ID_CONNECTED_PING: u8 = 0x00;

pub const ID_CONNECTED_PONG: u8 = 0x03;

pub const ID_CONNECTION_REQUEST: u8 = 0x09;

pub const ID_CONNECTION_ACCEPT: u8 = 0x10;

pub const ID_NEW_INCOMING_CONNECTION: u8 = 0x13;

pub const ID_DISCONNECT: u8 = 0x15;

/// An online session packet, decoded from a frame payload.
#[derive(Debug, Clone, Copy, PartialEq, Eq, Structural)]
pub enum OnlinePacket {
    ConnectedPing { time: u64 },
    ConnectedPong { ping_time: u64, pong_time: u64 },
    ConnectionRequest { client_guid: u64, time: u64 },
    ConnectionAccept { client_address: Address, request_time: u64, time: u64 },
    NewIncomingConnection { server_address: Address, request_time: u64, time: u64 },
    Disconnect,
}

/// The exact bytes of an online packet.
pub open spec fn spec_encode_online(p: OnlinePacket) -> Seq<u8> {
    match p {
        OnlinePacket::ConnectedPing { time } => seq![ID_CONNECTED_PING] + spec_u64_be(time),
        OnlinePacket::ConnectedPong { ping_time, pong_time } => seq![ID_CONNECTED_PONG]
            + spec_u64_be(ping_time) + spec_u64_be(pong_time),
        OnlinePacket::ConnectionRequest { client_guid, time } => seq![ID_CONNECTION_REQUEST]
            + spec_u64_be(client_guid) + spec_u64_be(time),
        OnlinePacket::ConnectionAccept { client_address, request_time, time } => seq![
            ID_CONNECTION_ACCEPT,
        ] + spec_address(client_address) + spec_u64_be(request_time) + spec_u64_be(time),
        OnlinePacket::NewIncomingConnection { server_address, request_time, time } => seq![
            ID_NEW_INCOMING_CONNECTION,
        ] + spec_address(server_address) + spec_u64_be(request_time) + spec_u64_be(time),
        OnlinePacket::Disconnect => seq![ID_DISCONNECT],
    }
}

/// Decoding of an online packet: the unique packet whose encoding is `b`.
pub open spec fn spec_decode_online(b: Seq<u8>) -> Option<OnlinePacket> {
    if b.len() < 1 {
        None
    } else if b[0] == ID_CONNECTED_PING {
        if b.len() == 9 {
            Some(OnlinePacket::ConnectedPing { time: spec_u64_from_be(b.subrange(1, 9)) })
        } else {
            None
        }
    } else if b[0] == ID_CONNECTED_PONG {
        if b.len() == 17 {
            Some(
                OnlinePacket::ConnectedPong {
                    ping_time: spec_u64_from_be(b.subrange(1, 9)),
                    pong_time: spec_u64_from_be(b.subrange(9, 17)),
                },
            )
        } else {
            None
        }
    } else if b[0] == ID_CONNECTION_REQUEST {
        if b.len() == 17 {
            Some(
                OnlinePacket::ConnectionRequest {
                    client_guid: spec_u64_from_be(b.subrange(1, 9)),
                    time: spec_u64_from_be(b.subrange(9, 17)),
                },
            )
        } else {
            None
        }
    } else if b[0] == ID_CONNECTION_ACCEPT {
        if b.len() == 24 && spec_address_from(b.subrange(1, 8)) is Some {
            Some(
                OnlinePacket::ConnectionAccept {
                    client_address: spec_address_from(b.subrange(1, 8))->Some_0,
                    request_time: spec_u64_from_be(b.subrange(8, 16)),
                    time: spec_u64_from_be(b.subrange(16, 24)),
                },
            )
        } else {
            None
        }
    } else if b[0] == ID_NEW_INCOMING_CONNECTION {
        if b.len() == 24 && spec_address_from(b.subrange(1, 8)) is Some {
            Some(
                OnlinePacket::NewIncomingConnection {
                    server_address: spec_address_from(b.subrange(1, 8))->Some_0,
                    request_time: spec_u64_from_be(b.subrange(8, 16)),
                    time: spec_u64_from_be(b.subrange(16, 24)),
                },
            )
        } else {
            None
        }
    } else if b[0] == ID_DISCONNECT {
        if b.len() == 1 {
            Some(OnlinePacket::Disconnect)
        } else {
            None
        }
    } else {
        None
    }
}

/// Encoding then decoding gives the packet back.
pub proof fn lemma_online_round_trip(p: OnlinePacket)
    ensures
        spec_decode_online(spec_encode_online(p)) == Some(p),
{
    let b = spec_encode_online(p);
    match p {
        OnlinePacket::ConnectedPing { time } => {
            lemma_u64_be_round_trip(time);
            assert(b.subrange(1, 9) =~= spec_u64_be(time));
        },
        OnlinePacket::ConnectedPong { ping_time, pong_time } => {
            lemma_u64_be_round_trip(ping_time);
            lemma_u64_be_round_trip(pong_time);
            assert(b.subrange(1, 9) =~= spec_u64_be(ping_time));
            assert(b.subrange(9, 17) =~= spec_u64_be(pong_time));
        },
        OnlinePacket::ConnectionRequest { client_guid, time } => {
            lemma_u64_be_round_trip(client_guid);
            lemma_u64_be_round_trip(time);
            assert(b.subrange(1, 9) =~= spec_u64_be(client_guid));
            assert(b.subrange(9, 17) =~= spec_u64_be(time));
        },
        OnlinePacket::ConnectionAccept { client_address, request_time, time } => {
            lemma_address_round_trip(client_address);
            lemma_u64_be_round_trip(request_time);
            lemma_u64_be_round_trip(time);
            assert(b.subrange(1, 8) =~= spec_address(client_address));
            assert(b.subrange(8, 16) =~= spec_u64_be(request_time));
            assert(b.subrange(16, 24) =~= spec_u64_be(time));
        },
        OnlinePacket::NewIncomingConnection { server_address, request_time, time } => {
            lemma_address_round_trip(server_address);
            lemma_u64_be_round_trip(request_time);
            lemma_u64_be_round_trip(time);
            assert(b.subrange(1, 8) =~= spec_address(server_address));
            assert(b.subrange(8, 16) =~= spec_u64_be(request_time));
            assert(b.subrange(16, 24) =~= spec_u64_be(time));
        },
        OnlinePacket::Disconnect => {},
    }
}

impl OnlinePacket {
    /// Encodes the packet to its exact wire bytes.
    pub fn encode(&self) -> (r: Vec<u8>)
        ensures
            r@ == spec_encode_online(*self),
    {
        let mut out: Vec<u8> = Vec::new();
        match self {
            OnlinePacket::ConnectedPing { time } => {
                out.push(ID_CONNECTED_PING);
                push_u64_be(&mut out, *time);
                assert(out@ =~= spec_encode_online(*self));
            },
            OnlinePacket::ConnectedPong { ping_time, pong_time } => {
                out.push(ID_CONNECTED_PONG);
                push_u64_be(&mut out, *ping_time);
                push_u64_be(&mut out, *pong_time);
                assert(out@ =~= spec_encode_online(*self));
            },
            OnlinePacket::ConnectionRequest { client_guid, time } => {
                out.push(ID_CONNECTION_REQUEST);
                push_u64_be(&mut out, *client_guid);
                push_u64_be(&mut out, *time);
                assert(out@ =~= spec_encode_online(*self));
            },
            OnlinePacket::ConnectionAccept { client_address, request_time, time } => {
                out.push(ID_CONNECTION_ACCEPT);
                push_address(&mut out, client_address);
                push_u64_be(&mut out, *request_time);
                push_u64_be(&mut out, *time);
                assert(out@ =~= spec_encode_online(*self));
            },
            OnlinePacket::NewIncomingConnection { server_address, request_time, time } => {
                out.push(ID_NEW_INCOMING_CONNECTION);
                push_address(&mut out, server_address);
                push_u64_be(&mut out, *request_time);
                push_u64_be(&mut out, *time);
                assert(out@ =~= spec_encode_online(*self));
            },
            OnlinePacket::Disconnect => {
                out.push(ID_DISCONNECT);
                assert(out@ =~= spec_encode_online(*self));
            },
        }
        out
    }

    /// Decodes an online packet from a frame payload; anything else is
    /// `MalformedPacket`.
    pub fn decode(buffer: &Vec<u8>) -> (r: Result<OnlinePacket, RakNetError>)
        ensures
            match r {
                Ok(p) => spec_decode_online(buffer@) == Some(p),
                Err(e) => spec_decode_online(buffer@) is None && e == RakNetError::MalformedPacket,
            },
    {
        let n = buffer.len();
        if n < 1 {
            return Err(RakNetError::MalformedPacket);
        }
        let id = buffer[0];
        if id == ID_CONNECTED_PING {
            if n == 9 {
                Ok(OnlinePacket::ConnectedPing { time: read_u64_be(buffer, 1) })
            } else {
                Err(RakNetError::MalformedPacket)
            }
        } else if id == ID_CONNECTED_PONG {
            if n == 17 {
                let ping_time = read_u64_be(buffer, 1);
                let pong_time = read_u64_be(buffer, 9);
                Ok(OnlinePacket::ConnectedPong { ping_time, pong_time })
            } else {
                Err(RakNetError::MalformedPacket)
            }
        } else if id == ID_CONNECTION_REQUEST {
            if n == 17 {
                let client_guid = read_u64_be(buffer, 1);
                let time = read_u64_be(buffer, 9);
                Ok(OnlinePacket::ConnectionRequest { client_guid, time })
            } else {
                Err(RakNetError::MalformedPacket)
            }
        } else if id == ID_CONNECTION_ACCEPT {
            if n == 24 {
                match read_address(buffer, 1) {
                    Some(client_address) => {
                        let request_time = read_u64_be(buffer, 8);
                        let time = read_u64_be(buffer, 16);
                        Ok(OnlinePacket::ConnectionAccept { client_address, request_time, time })
                    },
                    None => Err(RakNetError::MalformedPacket),
                }
            } else {
                Err(RakNetError::MalformedPacket)
            }
        } else if id == ID_NEW_INCOMING_CONNECTION {
            if n == 24 {
                match read_address(buffer, 1) {
                    Some(server_address) => {
                        let request_time = read_u64_be(buffer, 8);
                        let time = read_u64_be(buffer, 16);
                        Ok(
                            OnlinePacket::NewIncomingConnection {
                                server_address,
                                request_time,
                                time,
                            },
                        )
                    },
                    None => Err(RakNetError::MalformedPacket),
                }
            } else {
                Err(RakNetError::MalformedPacket)
            }
        } else if id == ID_DISCONNECT {
            if n == 1 {
                Ok(OnlinePacket::Disconnect)
            } else {
                Err(RakNetError::MalformedPacket)
            }
        } else {
            Err(RakNetError::MalformedPacket)
        }
    }
}

} // verus!
