use rakrs::protocol::frame::{AckRecord, Datagram, Frame, OrderInfo, Reliability, SplitInfo};
use rakrs::protocol::offline::OfflinePacket;
use rakrs::protocol::online::OnlinePacket;
use rakrs::protocol::wire::Address;
use rakrs::protocol::Motd;
use rakrs::error::RakNetError;

fn addr(a: u8, b: u8, c: u8, d: u8, port: u16) -> Address {
    Address { ip0: a, ip1: b, ip2: c, ip3: d, port }
}

#[test]
fn offline_ping_round_trip() {
    let p = OfflinePacket::UnconnectedPing { time: 123456789, client_guid: 0xdeadbeefcafe };
    let bytes = p.encode();
    assert_eq!(bytes[0], 0x01);
    assert_eq!(OfflinePacket::decode(&bytes).unwrap(), p);
}

#[test]
fn offline_pong_round_trip_empty_motd() {
    let p = OfflinePacket::UnconnectedPong { time: 0, server_guid: u64::MAX, motd: vec![] };
    let bytes = p.encode();
    assert_eq!(bytes.len(), 35);
    assert_eq!(OfflinePacket::decode(&bytes).unwrap(), p);
}

#[test]
fn offline_pong_round_trip_motd_bytes() {
    let motd = Motd::default().encode().into_bytes();
    let p = OfflinePacket::UnconnectedPong { time: 7, server_guid: 42, motd };
    let bytes = p.encode();
    assert_eq!(OfflinePacket::decode(&bytes).unwrap(), p);
}

#[test]
fn offline_open_connect_phase_one_round_trip_boundary() {
    // smallest announceable MTU: the encoding carries no padding at all
    let p = OfflinePacket::OpenConnectRequest1 { protocol: 11, mtu: 46 };
    let bytes = p.encode();
    assert_eq!(bytes.len(), 18);
    assert_eq!(OfflinePacket::decode(&bytes).unwrap(), p);
    let bigger = OfflinePacket::OpenConnectRequest1 { protocol: 11, mtu: 1492 };
    let b2 = bigger.encode();
    assert_eq!(b2.len(), 1492 - 28);
    assert_eq!(OfflinePacket::decode(&b2).unwrap(), bigger);
}

#[test]
fn offline_replies_round_trip() {
    let r1 = OfflinePacket::OpenConnectReply1 { server_guid: 99, mtu: 1400 };
    assert_eq!(OfflinePacket::decode(&r1.encode()).unwrap(), r1);
    let r2 = OfflinePacket::OpenConnectRequest2 {
        server_address: addr(192, 168, 0, 1, 19132),
        mtu: 1400,
        client_guid: 5,
    };
    assert_eq!(OfflinePacket::decode(&r2.encode()).unwrap(), r2);
    let r3 = OfflinePacket::OpenConnectReply2 {
        server_guid: 99,
        client_address: addr(10, 0, 0, 7, 54321),
        mtu: 1400,
    };
    assert_eq!(OfflinePacket::decode(&r3.encode()).unwrap(), r3);
}

#[test]
fn offline_decode_rejects_bad_magic() {
    let p = OfflinePacket::UnconnectedPing { time: 1, client_guid: 2 };
    let mut bytes = p.encode();
    bytes[9] ^= 0xff; // corrupt the sentinel
    assert_eq!(OfflinePacket::decode(&bytes).unwrap_err(), RakNetError::MalformedPacket);
}

#[test]
fn offline_decode_rejects_truncated() {
    let p = OfflinePacket::UnconnectedPing { time: 1, client_guid: 2 };
    let mut bytes = p.encode();
    bytes.pop();
    assert_eq!(OfflinePacket::decode(&bytes).unwrap_err(), RakNetError::MalformedPacket);
    assert_eq!(OfflinePacket::decode(&vec![]).unwrap_err(), RakNetError::MalformedPacket);
    assert_eq!(OfflinePacket::decode(&vec![0x42]).unwrap_err(), RakNetError::MalformedPacket);
}

#[test]
fn online_round_trips() {
    let cases = vec![
        OnlinePacket::ConnectedPing { time: 55 },
        OnlinePacket::ConnectedPong { ping_time: 55, pong_time: 56 },
        OnlinePacket::ConnectionRequest { client_guid: 1, time: 2 },
        OnlinePacket::ConnectionAccept {
            client_address: addr(127, 0, 0, 1, 9000),
            request_time: 3,
            time: 4,
        },
        OnlinePacket::NewIncomingConnection {
            server_address: addr(127, 0, 0, 1, 19132),
            request_time: 3,
            time: 4,
        },
        OnlinePacket::Disconnect,
    ];
    for p in cases {
        assert_eq!(OnlinePacket::decode(&p.encode()).unwrap(), p);
    }
}

#[test]
fn frame_round_trip_every_reliability() {
    let classes = vec![
        Reliability::Unreliable,
        Reliability::UnreliableSequenced,
        Reliability::Reliable,
        Reliability::ReliableOrdered,
        Reliability::ReliableSequenced,
    ];
    for rel in classes {
        let f = Frame {
            reliability: rel,
            reliable_index: if rel.is_reliable() { Some(7) } else { None },
            sequence_index: if rel.is_sequenced() { Some(9) } else { None },
            order: if rel.is_ordered() { Some(OrderInfo { index: 3, channel: 2 }) } else { None },
            split: None,
            payload: vec![1, 2, 3, 4],
        };
        let mut bytes: Vec<u8> = Vec::new();
        f.encode_into(&mut bytes);
        let (back, end) = Frame::decode_from(&bytes, 0).unwrap();
        assert_eq!(back, f);
        assert_eq!(end, bytes.len());
    }
}

#[test]
fn frame_round_trip_split() {
    let f = Frame {
        reliability: Reliability::ReliableOrdered,
        reliable_index: Some(0xfffffe),
        sequence_index: None,
        order: Some(OrderInfo { index: 0, channel: 0 }),
        split: Some(SplitInfo { id: 77, count: 3, index: 1 }),
        payload: vec![],
    };
    let mut bytes: Vec<u8> = Vec::new();
    f.encode_into(&mut bytes);
    let (back, end) = Frame::decode_from(&bytes, 0).unwrap();
    assert_eq!(back, f);
    assert_eq!(end, bytes.len());
}

#[test]
fn datagram_data_round_trip() {
    let f1 = Frame {
        reliability: Reliability::Reliable,
        reliable_index: Some(0),
        sequence_index: None,
        order: None,
        split: None,
        payload: vec![10, 20],
    };
    let f2 = Frame {
        reliability: Reliability::Unreliable,
        reliable_index: None,
        sequence_index: None,
        order: None,
        split: None,
        payload: vec![30],
    };
    let d = Datagram::Data { sequence: 0xabcdef, frames: vec![f1, f2] };
    let bytes = d.encode();
    assert_eq!(bytes[0], 0x80);
    assert_eq!(Datagram::decode(&bytes).unwrap(), d);
}

#[test]
fn datagram_ack_nack_round_trip() {
    let a = Datagram::Ack {
        records: vec![AckRecord { start: 5, end: 5 }, AckRecord { start: 9, end: 12 }],
    };
    let bytes = a.encode();
    assert_eq!(bytes[0], 0xc0);
    assert_eq!(Datagram::decode(&bytes).unwrap(), a);
    let n = Datagram::Nack { records: vec![AckRecord { start: 2, end: 4 }] };
    let nb = n.encode();
    assert_eq!(nb[0], 0xa0);
    assert_eq!(Datagram::decode(&nb).unwrap(), n);
}

#[test]
fn datagram_decode_rejects_garbage() {
    assert!(Datagram::decode(&vec![]).is_err());
    assert!(Datagram::decode(&vec![0x10, 0, 0]).is_err());
    assert!(Datagram::decode(&vec![0x80, 0, 0]).is_err());
}

#[test]
fn motd_twelve_fields_in_order() {
    let m = Motd::default();
    let s = m.encode();
    assert_eq!(s.matches(';').count(), 12);
    let fields: Vec<&str> = s.split(';').collect();
    assert_eq!(fields.len(), 13); // 12 fields, each followed by the separator
    assert_eq!(fields[0], "MCPE");
    assert_eq!(fields[1], "Netrex Server");
    assert_eq!(fields[2], "448");
    assert_eq!(fields[3], "1.17.10");
    assert_eq!(fields[4], "10");
    assert_eq!(fields[5], "100");
    assert_eq!(fields[7], "Netrex");
    assert_eq!(fields[8], "Creative");
    assert_eq!(fields[9], "1");
    assert_eq!(fields[10], "19132");
    assert_eq!(fields[11], "19133");
    assert_eq!(fields[12], "");
}

#[test]
fn motd_negative_server_id_renders_sign() {
    let mut m = Motd::default();
    m.server_id = -42;
    let s = m.encode();
    assert!(s.contains(";-42;"));
}
