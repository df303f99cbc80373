use rudpbase::{
    ConnectionStatus, PacketType, PeerAddr, RawPacket, Rudpbase, RudpError, SecurityCode,
    DataAckPacket, DataNackPacket, Transmit,
};
use rudpbase::security::signed_frame;

fn addr(port: u16) -> PeerAddr {
    PeerAddr { ip: 0x7f000001, port, v6: false }
}

fn submit(engine: &mut Rudpbase, payload: &[u8], to: PeerAddr, now: u64) -> Result<Vec<u8>, RudpError> {
    let mut buffer = engine.get_buffer().unwrap();
    buffer.data_mut()[..payload.len()].copy_from_slice(payload);
    buffer.set_data_len(payload.len()).unwrap();
    engine.send(buffer, to, now)
}

/// Hand every queued datagram of `from` to `to`; returns the payloads delivered.
fn deliver_queued(from: &mut Rudpbase, from_addr: PeerAddr, to: &mut Rudpbase, now: u64) -> Vec<Vec<u8>> {
    let mut delivered = Vec::new();
    for t in from.take_outgoing() {
        if let Ok(Some(d)) = to.handle_received_packet(&t.bytes, from_addr, now) {
            if let Ok(b) = d.result {
                delivered.push(b.data().to_vec());
            }
        }
    }
    delivered
}

fn kinds(out: &[Transmit]) -> Vec<PacketType> {
    out.iter().map(|t| RawPacket::parse(&t.bytes).unwrap().packet_type).collect()
}

#[test]
fn hello_is_delivered_and_acknowledged() {
    let (a_addr, b_addr) = (addr(9001), addr(9002));
    let mut a = Rudpbase::new(0);
    let mut b = Rudpbase::new(0);
    let frame = submit(&mut a, b"Hello", b_addr, 0).unwrap();
    let got = b.handle_received_packet(&frame, a_addr, 20).unwrap().unwrap();
    assert_eq!(got.from, a_addr);
    let buffer = got.result.unwrap();
    assert_eq!(buffer.data(), b"Hello");
    b.tick(25);
    let acks = b.take_outgoing();
    assert_eq!(kinds(&acks), vec![PacketType::DataAck]);
    assert!(a.handle_received_packet(&acks[0].bytes, b_addr, 40).unwrap().is_none());
    let stats = a.get_stats(b_addr).unwrap();
    assert_eq!(stats.packets_sent, 1);
    assert!(stats.avg_rtt > 0);
    assert_eq!(stats.avg_rtt, (7 * 200 + 40) / 8);
    assert_eq!(a.congestion_info(b_addr).unwrap().in_flight_packets, 0);
    assert_eq!(b.get_stats(a_addr).unwrap().packets_received, 1);
}

#[test]
fn lossy_channel_recovers_dropped_sequences() {
    let (a_addr, b_addr) = (addr(9003), addr(9004));
    let mut a = Rudpbase::new(0);
    let mut b = Rudpbase::new(0);
    let mut received: Vec<Vec<u8>> = Vec::new();
    let mut next = 0usize;
    let mut now = 0u64;
    while now <= 1000 && received.len() < 10 {
        while next < 10 {
            let msg = format!("m{}", next);
            match submit(&mut a, msg.as_bytes(), b_addr, now) {
                Ok(frame) => {
                    let seq = RawPacket::parse(&frame).unwrap().seq;
                    if seq != 2 && seq != 5 {
                        if let Ok(Some(d)) = b.handle_received_packet(&frame, a_addr, now) {
                            received.push(d.result.unwrap().data().to_vec());
                        }
                    }
                    next += 1;
                }
                Err(RudpError::CongestionWindowFull) => break,
                Err(_) => panic!("unexpected error"),
            }
        }
        a.tick(now);
        received.extend(deliver_queued(&mut a, a_addr, &mut b, now));
        b.tick(now);
        deliver_queued(&mut b, b_addr, &mut a, now);
        now += 10;
    }
    let mut got: Vec<String> = received.iter().map(|p| String::from_utf8(p.clone()).unwrap()).collect();
    got.sort();
    let mut want: Vec<String> = (0..10).map(|i| format!("m{}", i)).collect();
    want.sort();
    assert_eq!(got, want);
    let stats = a.get_stats(b_addr).unwrap();
    assert!(stats.retransmissions >= 2);
    assert_eq!(stats.packets_lost, 0);
}

#[test]
fn window_admits_exactly_while_in_flight_below_cwnd() {
    let b_addr = addr(9006);
    let mut a = Rudpbase::new(0);
    let mut accepted = 0;
    for i in 0..200u64 {
        let before = a.congestion_info(b_addr);
        let r = submit(&mut a, b"x", b_addr, i);
        let full = match before {
            Some(c) => c.in_flight_packets >= c.congestion_window,
            None => false,
        };
        assert_eq!(matches!(r, Err(RudpError::CongestionWindowFull)), full);
        if r.is_ok() {
            accepted += 1;
        }
    }
    assert_eq!(accepted, 1);
    assert_eq!(a.get_stats(b_addr).unwrap().packets_sent, 1);
}

#[test]
fn unanswered_frame_is_abandoned_after_five_retries() {
    let b_addr = addr(9008);
    let mut a = Rudpbase::new(0);
    submit(&mut a, b"lonely", b_addr, 0).unwrap();
    let mut resent_at = Vec::new();
    let mut now = 0u64;
    while now <= 12000 {
        a.tick(now);
        let out = a.take_outgoing();
        if out.iter().any(|t| RawPacket::parse(&t.bytes).unwrap().packet_type == PacketType::Data) {
            resent_at.push(now);
        }
        now += 10;
    }
    assert_eq!(resent_at, vec![200, 600, 1400, 3000, 6000]);
    let stats = a.get_stats(b_addr).unwrap();
    assert_eq!(stats.packets_lost, 1);
    assert_eq!(stats.packets_sent, 1);
    assert_eq!(stats.retransmissions, 5);
    assert_eq!(a.connection_status(b_addr), ConnectionStatus::Degraded);
}

#[test]
fn close_notifies_every_peer_and_forgets_them() {
    let mut a = Rudpbase::new(0);
    let (b_addr, c_addr) = (addr(9010), addr(9011));
    submit(&mut a, b"to b", b_addr, 0).unwrap();
    submit(&mut a, b"to c", c_addr, 0).unwrap();
    a.close();
    let out = a.take_outgoing();
    assert_eq!(out.len(), 2);
    for t in &out {
        let p = RawPacket::parse(&t.bytes).unwrap();
        assert_eq!(p.packet_type, PacketType::Close);
        assert_eq!(p.seq, 1);
        assert!(p.data.is_empty());
        assert!(SecurityCode::verify(p.packet_type, p.seq, &p.data, p.security_code));
    }
    let mut dests: Vec<u16> = out.iter().map(|t| t.to.port).collect();
    dests.sort();
    assert_eq!(dests, vec![9010, 9011]);
    assert_eq!(a.connection_status(b_addr), ConnectionStatus::Dead);
    assert_eq!(a.connection_status(c_addr), ConnectionStatus::Dead);
    assert!(a.get_stats(b_addr).is_none());
}

#[test]
fn replayed_frame_is_not_delivered_twice_but_acknowledged() {
    let (a_addr, b_addr) = (addr(9012), addr(9013));
    let mut a = Rudpbase::new(0);
    let mut b = Rudpbase::new(0);
    let frame = submit(&mut a, b"once", b_addr, 0).unwrap();
    assert!(b.handle_received_packet(&frame, a_addr, 1).unwrap().is_some());
    assert!(b.handle_received_packet(&frame, a_addr, 2).unwrap().is_none());
    b.tick(3);
    let out = b.take_outgoing();
    assert_eq!(out.len(), 1);
    let p = RawPacket::parse(&out[0].bytes).unwrap();
    assert_eq!(p.packet_type, PacketType::DataAck);
    assert_eq!(DataAckPacket::deserialize(&p.data).unwrap().ack_seqs, vec![0, 0]);
    assert_eq!(b.get_stats(a_addr).unwrap().packets_received, 1);
}

#[test]
fn every_submitted_payload_arrives_exactly_once() {
    let (a_addr, b_addr) = (addr(9014), addr(9015));
    let mut a = Rudpbase::new(0);
    let mut b = Rudpbase::new(0);
    let payloads: Vec<Vec<u8>> = (0..30u32).map(|i| i.to_be_bytes().to_vec()).collect();
    let mut delivered = Vec::new();
    let mut next = 0;
    let mut now = 0u64;
    while next < payloads.len() && now < 100000 {
        if let Ok(frame) = submit(&mut a, &payloads[next], b_addr, now) {
            next += 1;
            // every frame arrives twice
            for _ in 0..2 {
                if let Ok(Some(d)) = b.handle_received_packet(&frame, a_addr, now) {
                    delivered.push(d.result.unwrap().data().to_vec());
                }
            }
        }
        b.tick(now);
        deliver_queued(&mut b, b_addr, &mut a, now);
        now += 10;
    }
    delivered.sort();
    let mut want = payloads.clone();
    want.sort();
    assert_eq!(delivered, want);
}

#[test]
fn idle_peer_gets_exactly_one_ping() {
    let (a_addr, b_addr) = (addr(9016), addr(9017));
    let mut a = Rudpbase::new(0);
    let mut b = Rudpbase::new(0);
    let frame = submit(&mut a, b"hi", b_addr, 0).unwrap();
    b.handle_received_packet(&frame, a_addr, 1).unwrap();
    b.tick(2);
    deliver_queued(&mut b, b_addr, &mut a, 3);
    // the acknowledgement at t = 3 was the last activity
    a.tick(30003);
    assert!(a.take_outgoing().is_empty());
    a.tick(30004);
    let out = a.take_outgoing();
    assert_eq!(kinds(&out), vec![PacketType::Ping]);
    assert_eq!(a.connection_status(b_addr), ConnectionStatus::Probing);
    a.tick(30005);
    assert!(a.take_outgoing().is_empty());
    // the ping is answered: the peer is alive again
    let ping = RawPacket::parse(&out[0].bytes).unwrap();
    assert_eq!(ping.data, (30004u64 * 1_000_000).to_be_bytes().to_vec());
    b.handle_received_packet(&out[0].bytes, a_addr, 30010).unwrap();
    let reply = b.take_outgoing();
    assert_eq!(kinds(&reply), vec![PacketType::PingAck]);
    assert_eq!(RawPacket::parse(&reply[0].bytes).unwrap().data, ping.data);
    a.handle_received_packet(&reply[0].bytes, b_addr, 30021).unwrap();
    assert_eq!(a.connection_status(b_addr), ConnectionStatus::Alive);
}

#[test]
fn three_failed_pings_tear_the_peer_down() {
    let (a_addr, b_addr) = (addr(9018), addr(9019));
    let mut a = Rudpbase::new(0);
    let mut b = Rudpbase::new(0);
    let frame = submit(&mut a, b"hi", b_addr, 0).unwrap();
    b.handle_received_packet(&frame, a_addr, 1).unwrap();
    b.tick(2);
    deliver_queued(&mut b, b_addr, &mut a, 3);
    let mut pings = 0;
    let mut now = 30001u64;
    while now < 80000 && a.connection_status(b_addr) != ConnectionStatus::Dead {
        a.tick(now);
        pings += kinds(&a.take_outgoing()).iter().filter(|k| **k == PacketType::Ping).count();
        now += 1000;
    }
    assert_eq!(pings, 3);
    assert_eq!(a.connection_status(b_addr), ConnectionStatus::Dead);
    assert!(a.get_stats(b_addr).is_none());
    assert!(now <= 70001);
}

#[test]
fn retransmitted_frame_gives_no_rtt_sample() {
    let (a_addr, b_addr) = (addr(9020), addr(9021));
    let mut a = Rudpbase::new(0);
    let mut b = Rudpbase::new(0);
    let frame = submit(&mut a, b"late", b_addr, 0).unwrap();
    a.tick(200);
    assert_eq!(kinds(&a.take_outgoing()), vec![PacketType::Data]);
    b.handle_received_packet(&frame, a_addr, 900).unwrap();
    b.tick(901);
    deliver_queued(&mut b, b_addr, &mut a, 950);
    let info = a.congestion_info(b_addr).unwrap();
    assert_eq!(info.in_flight_packets, 0);
    assert_eq!(info.current_rto, 200);
    assert_eq!(a.get_stats(b_addr).unwrap().avg_rtt, 200);
}

#[test]
fn bad_datagrams_are_reported_and_ignored() {
    let (a_addr, b_addr) = (addr(9022), addr(9023));
    let mut a = Rudpbase::new(0);
    let mut b = Rudpbase::new(0);
    assert!(matches!(b.handle_received_packet(&[2, 0, 0], a_addr, 0), Err(RudpError::PacketTooSmall { size: 3, min: 9 })));
    assert!(matches!(b.handle_received_packet(&[200, 0, 0, 0, 0, 0, 0, 0, 0], a_addr, 0), Err(RudpError::Protocol { .. })));
    let mut frame = submit(&mut a, b"data", b_addr, 0).unwrap();
    frame[10] ^= 0xff;
    assert!(matches!(b.handle_received_packet(&frame, a_addr, 0), Err(RudpError::Security)));
    assert_eq!(b.connection_status(a_addr), ConnectionStatus::Dead);
    assert!(b.take_outgoing().is_empty());
}

#[test]
fn oversized_data_payload_is_rejected() {
    let a_addr = addr(9024);
    let mut b = Rudpbase::new(0);
    let frame = signed_frame(PacketType::Data, 0, &vec![7u8; 1201]);
    assert!(matches!(b.handle_received_packet(&frame, a_addr, 0), Err(RudpError::BufferTooLarge { .. })));
    let ok = signed_frame(PacketType::Data, 1, &vec![7u8; 1200]);
    let d = b.handle_received_packet(&ok, a_addr, 0).unwrap().unwrap();
    assert_eq!(d.result.unwrap().data().len(), 1200);
}

#[test]
fn close_from_peer_is_acknowledged_and_purges_it() {
    let (a_addr, b_addr) = (addr(9025), addr(9026));
    let mut a = Rudpbase::new(0);
    let mut b = Rudpbase::new(0);
    let frame = submit(&mut a, b"x", b_addr, 0).unwrap();
    b.handle_received_packet(&frame, a_addr, 1).unwrap();
    a.close();
    deliver_queued(&mut a, a_addr, &mut b, 2);
    assert_eq!(b.connection_status(a_addr), ConnectionStatus::Dead);
    let out = b.take_outgoing();
    assert_eq!(kinds(&out), vec![PacketType::CloseAck]);
    assert_eq!(RawPacket::parse(&out[0].bytes).unwrap().seq, 1);
    // a close from an unknown peer is acknowledged without creating state
    let stranger = addr(9999);
    let close = signed_frame(PacketType::Close, 7, &[]);
    b.handle_received_packet(&close, stranger, 3).unwrap();
    assert_eq!(kinds(&b.take_outgoing()), vec![PacketType::CloseAck]);
    assert!(b.get_stats(stranger).is_none());
}

#[test]
fn nack_triggers_immediate_retransmission() {
    let (a_addr, b_addr) = (addr(9027), addr(9028));
    let mut a = Rudpbase::new(0);
    let _ = a_addr;
    submit(&mut a, b"again", b_addr, 0).unwrap();
    let nack = signed_frame(PacketType::DataNack, 0, &DataNackPacket::new(vec![0, 55]).serialize());
    a.handle_received_packet(&nack, b_addr, 50).unwrap();
    let out = a.take_outgoing();
    assert_eq!(kinds(&out), vec![PacketType::Data]);
    assert_eq!(RawPacket::parse(&out[0].bytes).unwrap().data, b"again");
    assert_eq!(a.get_stats(b_addr).unwrap().retransmissions, 1);
}

#[test]
fn acks_are_batched_255_per_tick() {
    let a_addr = addr(9029);
    let mut b = Rudpbase::new(0);
    for seq in 0..300u32 {
        let f = signed_frame(PacketType::Data, seq, b"p");
        b.handle_received_packet(&f, a_addr, 0).unwrap();
    }
    b.tick(1);
    let first = b.take_outgoing();
    assert_eq!(first.len(), 1);
    let p = RawPacket::parse(&first[0].bytes).unwrap();
    assert_eq!(DataAckPacket::deserialize(&p.data).unwrap().ack_seqs, (0..255).collect::<Vec<u32>>());
    b.tick(2);
    let second = b.take_outgoing();
    let q = RawPacket::parse(&second[0].bytes).unwrap();
    assert_eq!(DataAckPacket::deserialize(&q.data).unwrap().ack_seqs, (255..300).collect::<Vec<u32>>());
    assert_eq!(q.seq, p.seq + 1);
    b.tick(3);
    assert!(b.take_outgoing().is_empty());
}

#[test]
fn control_frames_from_unknown_peers_create_no_state() {
    let b_addr = addr(9030);
    let mut a = Rudpbase::new(0);
    let nack = signed_frame(PacketType::DataNack, 0, &DataNackPacket::new(vec![]).serialize());
    a.handle_received_packet(&nack, b_addr, 0).unwrap();
    assert!(a.get_stats(b_addr).is_none());
    let frame = signed_frame(PacketType::Ping, 3, &[0; 8]);
    a.handle_received_packet(&frame, b_addr, 0).unwrap();
    assert!(a.get_stats(b_addr).is_none());
    assert_eq!(kinds(&a.take_outgoing()), vec![PacketType::PingAck]);
}

#[test]
fn pool_stats_are_reported() {
    let a = Rudpbase::new(0);
    let before = a.get_buffer_pool_stats().unwrap();
    assert_eq!(before.free_count, 1000);
    let b = a.get_buffer().unwrap();
    let after = a.get_buffer_pool_stats().unwrap();
    assert_eq!(after.total_allocations, before.total_allocations + 1);
    assert_eq!(after.free_count, 999);
    a.release_buffer(b);
    assert_eq!(a.get_buffer_pool_stats().unwrap().free_count, 1000);
}

