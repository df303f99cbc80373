use rudpbase::{DataAckPacket, DataNackPacket, PacketType, PingPacket, RawPacket, RudpError};

#[test]
fn test_packet_type_conversion() {
    assert_eq!(PacketType::from_u8(0), Some(PacketType::Ping));
    assert_eq!(PacketType::from_u8(2), Some(PacketType::Data));
    assert_eq!(PacketType::from_u8(255), None);
}

#[test]
fn test_ping_packet_serialization() {
    let ping = PingPacket::new();
    let serialized = ping.serialize();
    let deserialized = PingPacket::deserialize(&serialized).unwrap();
    assert_eq!(ping.timestamp, deserialized.timestamp);
}

#[test]
fn test_data_ack_packet_serialization() {
    let ack = DataAckPacket::new(vec![1, 2, 3]);
    let serialized = ack.serialize();
    let deserialized = DataAckPacket::deserialize(&serialized).unwrap();
    assert_eq!(ack.ack_seqs, deserialized.ack_seqs);
}

#[test]
fn test_raw_packet_parsing() {
    let mut packet = vec![2u8];
    packet.extend_from_slice(&0x12345678u32.to_be_bytes());
    packet.extend_from_slice(&100u32.to_be_bytes());
    packet.extend_from_slice(b"Hello");

    let parsed = RawPacket::parse(&packet).unwrap();
    assert_eq!(parsed.packet_type, PacketType::Data);
    assert_eq!(parsed.security_code, 0x12345678);
    assert_eq!(parsed.seq, 100);
    assert_eq!(parsed.data, b"Hello");
}

#[test]
fn every_tag_maps_back_to_its_type() {
    for tag in 0u8..7 {
        let t = PacketType::from_u8(tag).unwrap();
        assert_eq!(t.to_u8(), tag);
    }
    for tag in 7u8..=255 {
        assert_eq!(PacketType::from_u8(tag), None);
    }
}

#[test]
fn ping_payload_is_big_endian_timestamp() {
    let ping = PingPacket { timestamp: 0x0102030405060708 };
    assert_eq!(ping.serialize(), vec![1, 2, 3, 4, 5, 6, 7, 8]);
    assert!(PingPacket::deserialize(&[1, 2, 3, 4, 5, 6, 7]).is_none());
    let longer = PingPacket::deserialize(&[0, 0, 0, 0, 0, 0, 1, 0, 9]).unwrap();
    assert_eq!(longer.timestamp, 256);
}

#[test]
fn ack_payload_layout() {
    let ack = DataAckPacket::new(vec![1, 0x01020304]);
    assert_eq!(ack.serialize(), vec![2, 0, 0, 0, 1, 1, 2, 3, 4]);
    assert!(DataAckPacket::deserialize(&[]).is_none());
    assert!(DataAckPacket::deserialize(&[2, 0, 0, 0, 1]).is_none());
    assert_eq!(DataAckPacket::deserialize(&[0]).unwrap().ack_seqs, Vec::<u32>::new());
}

#[test]
fn ack_list_is_capped_at_255() {
    let seqs: Vec<u32> = (0..300).collect();
    let bytes = DataAckPacket::new(seqs.clone()).serialize();
    assert_eq!(bytes[0], 255);
    assert_eq!(bytes.len(), 1 + 255 * 4);
    let back = DataAckPacket::deserialize(&bytes).unwrap();
    assert_eq!(back.ack_seqs, seqs[..255].to_vec());
}

#[test]
fn nack_round_trip() {
    let nack = DataNackPacket::new(vec![7, 8, u32::MAX]);
    let back = DataNackPacket::deserialize(&nack.serialize()).unwrap();
    assert_eq!(back.nack_seqs, vec![7, 8, u32::MAX]);
}

#[test]
fn parse_rejects_short_and_unknown() {
    match RawPacket::parse(&[2, 0, 0, 0, 0, 0, 0, 0]) {
        Err(RudpError::PacketTooSmall { size, min }) => {
            assert_eq!(size, 8);
            assert_eq!(min, 9);
        }
        _ => panic!("expected PacketTooSmall"),
    }
    assert!(matches!(RawPacket::parse(&[9, 0, 0, 0, 0, 0, 0, 0, 0]), Err(RudpError::Protocol { .. })));
    let empty = RawPacket::parse(&[6, 0, 0, 0, 1, 0, 0, 0, 2]).unwrap();
    assert_eq!(empty.packet_type, PacketType::CloseAck);
    assert_eq!(empty.security_code, 1);
    assert_eq!(empty.seq, 2);
    assert!(empty.data.is_empty());
}

#[test]
fn serialize_then_parse_gives_fields_back() {
    let p = RawPacket { packet_type: PacketType::DataNack, security_code: 0xdeadbeef, seq: 77, data: b"xyz".to_vec() };
    let bytes = p.serialize();
    assert_eq!(bytes[..9], [4, 0xde, 0xad, 0xbe, 0xef, 0, 0, 0, 77]);
    let q = RawPacket::parse(&bytes).unwrap();
    assert_eq!(q.packet_type, PacketType::DataNack);
    assert_eq!(q.security_code, 0xdeadbeef);
    assert_eq!(q.seq, 77);
    assert_eq!(q.data, b"xyz");
}
