use rakrs::connection::{Connection, ConnectionState};
use rakrs::fragment::{split_payload, FragmentAssembler};
use rakrs::order::{newer_than, next_index, OrderChannel, SequencedChannel};
use rakrs::protocol::frame::{AckRecord, Frame, OrderInfo, Reliability, SplitInfo};
use rakrs::protocol::offline::OfflinePacket;
use rakrs::protocol::online::OnlinePacket;
use rakrs::protocol::wire::Address;
use rakrs::recovery::RecoveryQueue;
use rakrs::util::{CacheStore, SafeGenerator};

fn addr() -> Address {
    Address { ip0: 127, ip1: 0, ip2: 0, ip3: 1, port: 19132 }
}

fn reliable_frame(index: u32, payload: Vec<u8>) -> Frame {
    Frame {
        reliability: Reliability::Reliable,
        reliable_index: Some(index),
        sequence_index: None,
        order: None,
        split: None,
        payload,
    }
}

fn ordered_frame(reliable: u32, order: u32, channel: u8, payload: Vec<u8>) -> Frame {
    Frame {
        reliability: Reliability::ReliableOrdered,
        reliable_index: Some(reliable),
        sequence_index: None,
        order: Some(OrderInfo { index: order, channel }),
        split: None,
        payload,
    }
}

fn sequenced_frame(reliable: u32, seq: u32, channel: u8, payload: Vec<u8>) -> Frame {
    Frame {
        reliability: Reliability::ReliableSequenced,
        reliable_index: Some(reliable),
        sequence_index: Some(seq),
        order: Some(OrderInfo { index: seq, channel }),
        split: None,
        payload,
    }
}

fn connected() -> Connection {
    let mut c = Connection::new(1, 0);
    c.state = ConnectionState::Connected;
    c
}

#[test]
fn circular_comparison_handles_wraparound() {
    assert!(newer_than(1, 0));
    assert!(!newer_than(0, 1));
    assert!(!newer_than(5, 5));
    // across the wrap point: 0 is newer than the last index
    assert!(newer_than(0, 0xffffff));
    assert!(!newer_than(0xffffff, 0));
    assert_eq!(next_index(0xffffff), 0);
}

#[test]
fn sequenced_channel_drops_stale() {
    // send order 1,2,3; arrival order 3,1,2: only 3 is observed
    let mut lane = SequencedChannel::new();
    assert!(lane.accept(3));
    assert!(!lane.accept(1));
    assert!(!lane.accept(2));
    assert_eq!(lane.latest, 3);
}

#[test]
fn ordered_channel_monotonic_delivery() {
    // send order 0,1,2; arrival order 2,0,1: delivered exactly 0,1,2
    let mut lane = OrderChannel::new();
    assert_eq!(lane.receive(2, vec![2]), Vec::<Vec<u8>>::new());
    assert_eq!(lane.receive(0, vec![0]), vec![vec![0]]);
    assert_eq!(lane.receive(1, vec![1]), vec![vec![1], vec![2]]);
}

#[test]
fn ordered_channel_drops_stale_and_duplicate() {
    let mut lane = OrderChannel::new();
    assert_eq!(lane.receive(0, vec![0]), vec![vec![0]]);
    // index 0 is already delivered: a duplicate releases nothing
    assert_eq!(lane.receive(0, vec![0]), Vec::<Vec<u8>>::new());
    assert_eq!(lane.receive(1, vec![1]), vec![vec![1]]);
}

#[test]
fn connection_ordered_frames_permuted_arrival() {
    let mut c = connected();
    let out = c.handle_frame(ordered_frame(0, 1, 0, vec![11]), 1);
    assert!(out.is_empty());
    let out = c.handle_frame(ordered_frame(1, 0, 0, vec![10]), 2);
    assert_eq!(out, vec![vec![10], vec![11]]);
}

#[test]
fn connection_sequenced_frames_newest_wins() {
    let mut c = connected();
    assert_eq!(c.handle_frame(sequenced_frame(0, 3, 0, vec![3]), 1), vec![vec![3]]);
    assert!(c.handle_frame(sequenced_frame(1, 1, 0, vec![1]), 2).is_empty());
    assert!(c.handle_frame(sequenced_frame(2, 2, 0, vec![2]), 3).is_empty());
}

#[test]
fn connection_reliable_duplicates_dropped_exactly_once() {
    let mut c = connected();
    // the same reliable frame arrives three times: delivered once
    let mut delivered = 0;
    for now in 0..3 {
        let out = c.handle_frame(reliable_frame(7, vec![42]), now);
        delivered += out.len();
    }
    assert_eq!(delivered, 1);
    // a different index is delivered on its own first arrival
    assert_eq!(c.handle_frame(reliable_frame(8, vec![43]), 4), vec![vec![43]]);
}

#[test]
fn recovery_queue_lifecycle() {
    let mut q = RecoveryQueue::new();
    q.track(1, vec![vec![0xaa]], 100);
    q.track(2, vec![vec![0xbb]], 150);
    q.track(3, vec![vec![0xcc]], 400);
    // an ACK removes its entry for good
    assert!(q.ack(1));
    assert!(!q.ack(1));
    // a NACK hands the frames back for immediate resend
    let frames = q.nack(2).unwrap();
    assert_eq!(frames, vec![vec![0xbb]]);
    assert!(q.nack(2).is_none());
    // the sweep returns exactly the entries older than the timeout
    let expired = q.collect_expired(1000, 500);
    assert_eq!(expired.len(), 1);
    assert_eq!(expired[0].0, 3);
    assert_eq!(expired[0].1, vec![vec![0xcc]]);
    assert_eq!(q.collect_expired(1000, 500).len(), 0);
}

#[test]
fn recovery_resend_until_acked() {
    // a tracked frame keeps coming back from the sweep until acknowledged
    let mut q = RecoveryQueue::new();
    q.track(10, vec![vec![1]], 0);
    let again = q.collect_expired(1000, 100);
    assert_eq!(again.len(), 1);
    // resent under a fresh datagram number, tracked anew
    q.track(11, again.into_iter().next().unwrap().1, 1000);
    assert!(q.ack(11));
    assert_eq!(q.collect_expired(5000, 100).len(), 0);
}

#[test]
fn fragmentation_round_trip_any_arrival_order() {
    let payload: Vec<u8> = (0u16..1000).map(|x| (x % 251) as u8).collect();
    let parts = split_payload(&payload, 300);
    assert_eq!(parts.len(), 4);
    let mut assembler = FragmentAssembler::new();
    let count = parts.len() as u32;
    // deliver the fragments out of order; the last one completes the set
    let order = [2usize, 0, 3, 1];
    let mut result = None;
    for &i in &order {
        result = assembler.insert(77, count, i as u32, parts[i].clone(), 0);
    }
    assert_eq!(result.unwrap(), payload);
}

#[test]
fn fragment_set_staleness_purges_partial_sets() {
    let mut assembler = FragmentAssembler::new();
    assert!(assembler.insert(5, 2, 0, vec![1, 2], 0).is_none());
    // past the staleness bound the partial set is discarded
    assembler.purge_stale(10_000, 100);
    // the second half now opens a fresh set instead of completing the old one
    assert!(assembler.insert(5, 2, 1, vec![3, 4], 10_000).is_none());
    // control: without purging, the two halves complete
    let mut other_assembler = FragmentAssembler::new();
    assert!(other_assembler.insert(5, 2, 0, vec![1, 2], 0).is_none());
    assert_eq!(other_assembler.insert(5, 2, 1, vec![3, 4], 50).unwrap(), vec![1, 2, 3, 4]);
}

#[test]
fn fragment_caps_bound_memory() {
    let mut assembler = FragmentAssembler::new();
    // a count over the cap is rejected outright
    assert!(assembler.insert(1, 100_000, 0, vec![0], 0).is_none());
    // sustained partial injection cannot grow the set table past its cap
    for id in 0..1000u16 {
        assembler.insert(id, 2, 0, vec![0], 0);
    }
    assert!(assembler.sets.len() <= 256);
}

#[test]
fn connection_reassembles_split_reliable_message() {
    let mut c = connected();
    let first = Frame {
        split: Some(SplitInfo { id: 9, count: 2, index: 0 }),
        ..reliable_frame(0, vec![1, 2])
    };
    let second = Frame {
        split: Some(SplitInfo { id: 9, count: 2, index: 1 }),
        ..reliable_frame(1, vec![3, 4])
    };
    assert!(c.handle_frame(first, 0).is_empty());
    assert_eq!(c.handle_frame(second, 1), vec![vec![1, 2, 3, 4]]);
}

#[test]
fn make_frames_splits_and_stamps() {
    let mut c = connected();
    c.mtu = 127; // 100-byte chunks after overhead
    let payload: Vec<u8> = (0u16..250).map(|x| x as u8).collect();
    let frames = c.make_frames(payload.clone(), Reliability::ReliableOrdered, 0);
    assert_eq!(frames.len(), 3);
    let mut rebuilt: Vec<u8> = Vec::new();
    for (i, f) in frames.iter().enumerate() {
        let si = f.split.unwrap();
        assert_eq!(si.index, i as u32);
        assert_eq!(si.count, 3);
        assert_eq!(si.id, 0);
        assert_eq!(f.reliability, Reliability::ReliableOrdered);
        // indices stamp consecutively from the connection's counters
        assert_eq!(f.reliable_index, Some(i as u32));
        assert_eq!(f.order.unwrap().index, i as u32);
        assert_eq!(f.order.unwrap().channel, 0);
        rebuilt.extend_from_slice(&f.payload);
    }
    assert_eq!(rebuilt, payload);
    // the counters advanced by exactly the frame count
    assert_eq!(c.reliable_out, 3);
    assert_eq!(c.order_out[0], 3);
    assert_eq!(c.split_out, 1);
    // a small payload rides a single unsplit frame
    let single = c.make_frames(vec![1, 2, 3], Reliability::Reliable, 0);
    assert_eq!(single.len(), 1);
    assert!(single[0].split.is_none());
    assert_eq!(single[0].payload, vec![1, 2, 3]);
}

#[test]
fn handshake_completes_in_bounded_round_trips() {
    let motd = b"demo".to_vec();
    let mut c = Connection::new(777, 0);
    assert_eq!(c.state, ConnectionState::Unconnected);
    // discovery
    let pong = c
        .handle_offline(&OfflinePacket::UnconnectedPing { time: 1, client_guid: 5 }, motd.clone(), 1)
        .unwrap();
    assert_eq!(pong, OfflinePacket::UnconnectedPong { time: 1, server_guid: 777, motd });
    // open-connection phase one
    let r1 = c
        .handle_offline(&OfflinePacket::OpenConnectRequest1 { protocol: 11, mtu: 1400 }, vec![], 2)
        .unwrap();
    assert_eq!(r1, OfflinePacket::OpenConnectReply1 { server_guid: 777, mtu: 1400 });
    assert_eq!(c.state, ConnectionState::MtuDiscovery);
    // open-connection phase two
    let r2 = c
        .handle_offline(
            &OfflinePacket::OpenConnectRequest2 {
                server_address: addr(),
                mtu: 1400,
                client_guid: 5,
            },
            vec![],
            3,
        )
        .unwrap();
    assert_eq!(
        r2,
        OfflinePacket::OpenConnectReply2 { server_guid: 777, client_address: addr(), mtu: 1400 }
    );
    assert_eq!(c.state, ConnectionState::HandshakeRequested);
    assert_eq!(c.mtu, 1400);
    // session request and completion
    let accept = c
        .handle_online(&OnlinePacket::ConnectionRequest { client_guid: 5, time: 4 }, addr(), 5)
        .unwrap();
    assert_eq!(
        accept,
        OnlinePacket::ConnectionAccept { client_address: addr(), request_time: 4, time: 5 }
    );
    let none = c.handle_online(
        &OnlinePacket::NewIncomingConnection { server_address: addr(), request_time: 4, time: 6 },
        addr(),
        6,
    );
    assert!(none.is_none());
    assert_eq!(c.state, ConnectionState::Connected);
    // duplicate handshake packets are ignored, not fatal
    let dup = c.handle_offline(
        &OfflinePacket::OpenConnectRequest2 { server_address: addr(), mtu: 1400, client_guid: 5 },
        vec![],
        7,
    );
    assert!(dup.is_none());
    assert_eq!(c.state, ConnectionState::Connected);
}

#[test]
fn connected_ping_pong_and_disconnect() {
    let mut c = connected();
    let pong = c.handle_online(&OnlinePacket::ConnectedPing { time: 9 }, addr(), 10).unwrap();
    assert_eq!(pong, OnlinePacket::ConnectedPong { ping_time: 9, pong_time: 10 });
    assert!(c.handle_online(&OnlinePacket::Disconnect, addr(), 11).is_none());
    assert_eq!(c.state, ConnectionState::Closed);
    // a closed connection answers nothing
    assert!(c.handle_online(&OnlinePacket::ConnectedPing { time: 12 }, addr(), 12).is_none());
}

#[test]
fn tick_closes_idle_connection_and_sweeps_resends() {
    let mut c = connected();
    c.recovery.track(3, vec![vec![9]], 0);
    let due = c.tick(10_000, 500, 60_000);
    assert_eq!(due.len(), 1);
    assert_eq!(due[0].0, 3);
    assert_eq!(c.state, ConnectionState::Connected);
    let none = c.tick(100_000, 500, 60_000);
    assert!(none.is_empty());
    assert_eq!(c.state, ConnectionState::Closed);
}

#[test]
fn ack_and_nack_records_clear_ranges() {
    let mut c = connected();
    for s in 1..=5u32 {
        c.recovery.track(s, vec![vec![s as u8]], 0);
    }
    c.handle_ack_record(AckRecord { start: 2, end: 4 });
    assert!(!c.recovery.ack(2));
    assert!(!c.recovery.ack(3));
    assert!(!c.recovery.ack(4));
    let resend = c.handle_nack_record(AckRecord { start: 1, end: 5 });
    assert_eq!(resend, vec![vec![vec![1u8]], vec![vec![5u8]]]);
}

#[test]
fn ack_generation_records_sequences_and_gaps() {
    let mut c = connected();
    c.record_incoming(0);
    c.record_incoming(1);
    // jumping to 4 presumes 2 and 3 lost
    c.record_incoming(4);
    assert_eq!(c.nack_queue, vec![2, 3]);
    // one presumed-lost datagram arrives late and leaves the missing list
    c.record_incoming(3);
    assert_eq!(c.nack_queue, vec![2]);
    let acks = c.take_acks();
    assert_eq!(acks.len(), 4);
    assert_eq!(acks[0], AckRecord { start: 0, end: 0 });
    assert_eq!(acks[2], AckRecord { start: 4, end: 4 });
    assert!(c.ack_queue.is_empty());
    let nacks = c.take_nacks();
    assert_eq!(nacks, vec![AckRecord { start: 2, end: 2 }]);
    assert!(c.nack_queue.is_empty());
}

#[test]
fn safe_generator_wraps() {
    let mut g = SafeGenerator::<u8>::new();
    assert_eq!(g.get(), 0);
    for _ in 0..255 {
        g.next();
    }
    assert_eq!(g.get(), 255);
    assert_eq!(g.next(), 0);
    let mut g32 = SafeGenerator::<u32>::new();
    assert_eq!(g32.next(), 1);
    assert_eq!(g32.get(), 1);
}

#[test]
fn cache_store_add_flush() {
    let mut store = CacheStore::new();
    store.add(0, vec![0, 0, 0, 1], 100);
    store.add(0, vec![2], 150);
    store.add_bulk(7, vec![vec![3], vec![4]], 200);
    assert!(store.has(&0));
    assert!(store.has(&7));
    assert!(!store.has(&9));
    let (time, buffers) = store.flush_key(7).unwrap();
    assert_eq!(time, 200);
    assert_eq!(buffers, vec![vec![3], vec![4]]);
    assert!(store.flush_key(7).is_none());
    let flushed = store.flush();
    assert_eq!(flushed.len(), 1);
    assert_eq!(flushed[0].0, 0);
    assert_eq!(flushed[0].1, 100);
    assert_eq!(flushed[0].2, vec![vec![0, 0, 0, 1], vec![2]]);
    assert!(!store.has(&0));
}
