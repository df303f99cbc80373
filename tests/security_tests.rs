use rudpbase::security::signed_frame;
use rudpbase::{PacketType, RawPacket, SecurityCode};

#[test]
fn test_security_code_calculation() {
    let data = b"Hello, World!";
    let code = SecurityCode::calculate(PacketType::Data, 100, data);

    let code2 = SecurityCode::calculate(PacketType::Data, 100, data);
    assert_eq!(code, code2);
}

#[test]
fn test_security_code_verification() {
    let data = b"Test data";
    let code = SecurityCode::calculate(PacketType::Data, 42, data);

    assert!(SecurityCode::verify(PacketType::Data, 42, data, code));
    assert!(!SecurityCode::verify(PacketType::Data, 42, data, code + 1));
    assert!(!SecurityCode::verify(PacketType::Data, 43, data, code));
    assert!(!SecurityCode::verify(PacketType::Ping, 42, data, code));
}

#[test]
fn test_security_code_with_short_data() {
    let data = b"Hi";
    let code = SecurityCode::calculate(PacketType::Data, 1, data);
    assert!(SecurityCode::verify(PacketType::Data, 1, data, code));
}

#[test]
fn test_security_code_with_empty_data() {
    let data = b"";
    let code = SecurityCode::calculate(PacketType::Ping, 0, data);
    assert!(SecurityCode::verify(PacketType::Ping, 0, data, code));
}

#[test]
fn test_security_code_with_long_data() {
    let data = b"This is a very long message that is definitely more than 16 bytes";
    let code = SecurityCode::calculate(PacketType::Data, 999, data);
    assert!(SecurityCode::verify(PacketType::Data, 999, data, code));
}

#[test]
fn test_different_data_produces_different_codes() {
    let data1 = b"Hello";
    let data2 = b"World";

    let code1 = SecurityCode::calculate(PacketType::Data, 1, data1);
    let code2 = SecurityCode::calculate(PacketType::Data, 1, data2);
    assert_ne!(code1, code2);
}

/// FNV-1a (64 bit) over the tag input, computed independently here.
fn reference_tag(t: u8, seq: u32, data: &[u8]) -> u32 {
    let mut input: Vec<u8> = b"ffmesh".to_vec();
    input.push(t);
    input.extend_from_slice(&seq.to_be_bytes());
    input.extend_from_slice(&(data.len() as u16).to_be_bytes());
    let mut prefix = [0u8; 16];
    let n = data.len().min(16);
    prefix[..n].copy_from_slice(&data[..n]);
    input.extend_from_slice(&prefix);
    let mut h: u64 = 0xcbf29ce484222325;
    for b in input {
        h ^= b as u64;
        h = h.wrapping_mul(0x100000001b3);
    }
    h as u32
}

#[test]
fn tag_is_fnv1a_over_salted_header_and_prefix() {
    let data = b"Hello, World! and more bytes";
    assert_eq!(SecurityCode::calculate(PacketType::Data, 100, data), reference_tag(2, 100, data));
    assert_eq!(SecurityCode::calculate(PacketType::Ping, 0, b""), reference_tag(0, 0, b""));
}

#[test]
fn parse_of_serialized_frame_round_trips_and_verifies() {
    for (t, seq, payload) in [
        (PacketType::Data, 0u32, b"".to_vec()),
        (PacketType::DataAck, 5, vec![1, 0, 0, 0, 9]),
        (PacketType::Ping, u32::MAX, vec![0xab; 1200]),
    ] {
        let frame = signed_frame(t, seq, &payload);
        let p = RawPacket::parse(&frame).unwrap();
        assert_eq!(p.packet_type, t);
        assert_eq!(p.seq, seq);
        assert_eq!(p.data, payload);
        assert!(SecurityCode::verify(p.packet_type, p.seq, &p.data, p.security_code));
    }
}

#[test]
fn flipping_a_covered_byte_breaks_verification() {
    let payload = b"0123456789abcdefTAIL".to_vec();
    let frame = signed_frame(PacketType::Data, 4242, &payload);
    // bytes 5..9 are the sequence, 9..25 the first 16 payload bytes
    for i in (5..9).chain(9..25) {
        let mut bad = frame.clone();
        bad[i] ^= 0x01;
        let p = RawPacket::parse(&bad).unwrap();
        assert!(!SecurityCode::verify(p.packet_type, p.seq, &p.data, p.security_code), "byte {}", i);
    }
    let mut retyped = frame.clone();
    retyped[0] = PacketType::Ping.to_u8();
    let p = RawPacket::parse(&retyped).unwrap();
    assert!(!SecurityCode::verify(p.packet_type, p.seq, &p.data, p.security_code));
    let code = SecurityCode::calculate(PacketType::Data, 4242, &payload);
    assert!(!SecurityCode::verify(PacketType::Data, 4243, &payload, code));
    assert!(!SecurityCode::verify(PacketType::DataAck, 4242, &payload, code));
}
