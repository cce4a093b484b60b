use gbnet::packet::{
    deny_reason, disconnect_reason, sequence_diff, sequence_greater_than, Packet, PacketHeader,
    PacketType,
};
use gbnet::serialize::bit_io::BitError;

#[test]
fn test_packet_serialization() {
    let header = PacketHeader { protocol_id: 0x12345678, sequence: 100, ack: 99, ack_bits: 0xFFFFFFFF };

    let packet = Packet::new(header.clone(), PacketType::KeepAlive).with_payload(vec![1, 2, 3, 4]);

    let serialized = packet.serialize().unwrap();
    let deserialized = Packet::deserialize(&serialized).unwrap();

    assert_eq!(packet.header, deserialized.header);
    assert_eq!(packet.packet_type, deserialized.packet_type);
    assert_eq!(packet.payload, deserialized.payload);
}

#[test]
fn test_sequence_comparison() {
    assert!(sequence_greater_than(1, 0));
    assert!(sequence_greater_than(0, 65535));
    assert!(!sequence_greater_than(0, 1));

    assert_eq!(sequence_diff(1, 0), 1);
    assert_eq!(sequence_diff(0, 1), -1);
    assert_eq!(sequence_diff(0, 65535), 1);
    assert_eq!(sequence_diff(65535, 0), -1);
}

#[test]
fn test_packet_serialization_all_types() {
    let test_cases = vec![
        (PacketType::ConnectionRequest, "ConnectionRequest"),
        (PacketType::ConnectionChallenge { server_salt: 0x123456789ABCDEF0 }, "ConnectionChallenge"),
        (PacketType::ConnectionResponse { client_salt: 0xFEDCBA9876543210 }, "ConnectionResponse"),
        (PacketType::ConnectionAccept, "ConnectionAccept"),
        (PacketType::ConnectionDeny { reason: 5 }, "ConnectionDeny"),
        (PacketType::Disconnect { reason: 2 }, "Disconnect"),
        (PacketType::KeepAlive, "KeepAlive"),
        (PacketType::Payload { channel: 3, is_fragment: true }, "Payload"),
    ];

    for (packet_type, name) in test_cases {
        let header =
            PacketHeader { protocol_id: 0x12345678, sequence: 1000, ack: 999, ack_bits: 0xAAAAAAAA };

        let packet = Packet::new(header.clone(), packet_type.clone()).with_payload(vec![1, 2, 3, 4, 5]);

        let serialized = packet.serialize().unwrap();
        let deserialized = Packet::deserialize(&serialized).unwrap();

        assert_eq!(packet.header, deserialized.header, "Header mismatch for {}", name);
        assert_eq!(packet.packet_type, deserialized.packet_type, "PacketType mismatch for {}", name);
        assert_eq!(packet.payload, deserialized.payload, "Payload mismatch for {}", name);
    }
}

#[test]
fn test_sequence_number_math() {
    assert!(sequence_greater_than(1, 0));
    assert!(sequence_greater_than(100, 99));
    assert!(!sequence_greater_than(99, 100));
    assert!(sequence_greater_than(0, 65535));
    assert!(!sequence_greater_than(65535, 0));

    assert_eq!(sequence_diff(100, 99), 1);
    assert_eq!(sequence_diff(99, 100), -1);
    assert_eq!(sequence_diff(0, 65535), 1);
    assert_eq!(sequence_diff(65535, 0), -1);
}

#[test]
fn test_packet_header_sizes() {
    let header = PacketHeader { protocol_id: 0xFFFFFFFF, sequence: 0xFFFF, ack: 0xFFFF, ack_bits: 0xFFFFFFFF };

    let packet = Packet::new(header, PacketType::KeepAlive);
    let serialized = packet.serialize().unwrap();

    assert!(serialized.len() >= 13);
}

#[test]
fn test_integration_packet_roundtrip() {
    let header = PacketHeader {
        protocol_id: 0x12345678,
        sequence: 12345,
        ack: 12344,
        ack_bits: 0b11111111111111111111111111111110,
    };

    let packet_type = PacketType::Payload { channel: 2, is_fragment: false };

    let payload = b"This is a test payload with some data!".to_vec();
    let packet = Packet::new(header.clone(), packet_type.clone()).with_payload(payload.clone());

    let serialized = packet.serialize().unwrap();
    let deserialized = Packet::deserialize(&serialized).unwrap();

    assert_eq!(deserialized.header.protocol_id, header.protocol_id);
    assert_eq!(deserialized.header.sequence, header.sequence);
    assert_eq!(deserialized.header.ack, header.ack);
    assert_eq!(deserialized.header.ack_bits, header.ack_bits);

    match deserialized.packet_type {
        PacketType::Payload { channel, is_fragment } => {
            assert_eq!(channel, 2);
            assert_eq!(is_fragment, false);
        }
        _ => panic!("Wrong packet type"),
    }

    assert_eq!(deserialized.payload, payload);
}

#[test]
fn test_packet_construction() {
    let header = PacketHeader { protocol_id: 0x12345678, sequence: 100, ack: 99, ack_bits: 0xFFFFFFFF };

    let packet = Packet::new(header.clone(), PacketType::KeepAlive);
    assert_eq!(packet.header.protocol_id, 0x12345678);
    assert_eq!(packet.header.sequence, 100);
    assert!(packet.payload.is_empty());
}

#[test]
fn test_sequence_math() {
    assert!(sequence_greater_than(1, 0));
    assert!(!sequence_greater_than(0, 1));

    assert!(sequence_greater_than(0, 65535));
    assert!(!sequence_greater_than(65535, 0));

    assert_eq!(sequence_diff(5, 3), 2);
    assert_eq!(sequence_diff(3, 5), -2);
    assert_eq!(sequence_diff(0, 65535), 1);
}

#[test]
fn packet_keepalive_exact_bytes() {
    let header = PacketHeader { protocol_id: 0x01020304, sequence: 0x0506, ack: 0x0708, ack_bits: 0x090A0B0C };
    let packet = Packet::new(header, PacketType::KeepAlive).with_payload(vec![0xEE]);
    let bytes = packet.serialize().unwrap();
    // 96 header bits, the type index 6 in 4 bits, padding, then the payload.
    assert_eq!(
        bytes,
        vec![0x01, 0x02, 0x03, 0x04, 0x05, 0x06, 0x07, 0x08, 0x09, 0x0A, 0x0B, 0x0C, 0x60, 0xEE]
    );
}

#[test]
fn packet_channel_too_wide_is_invalid() {
    let header = PacketHeader { protocol_id: 1, sequence: 0, ack: 0, ack_bits: 0 };
    let packet = Packet::new(header, PacketType::Payload { channel: 8, is_fragment: false });
    assert_eq!(packet.serialize().unwrap_err(), BitError::InvalidData);
}

#[test]
fn packet_empty_data_is_invalid() {
    assert_eq!(Packet::deserialize(&[]).unwrap_err(), BitError::InvalidData);
}

#[test]
fn packet_short_data_is_unexpected_end() {
    assert_eq!(Packet::deserialize(&[1, 2, 3]).unwrap_err(), BitError::UnexpectedEof);
}

#[test]
fn packet_unknown_type_index_is_invalid() {
    let mut bytes = vec![0u8; 12];
    bytes.push(0xF0);
    assert_eq!(Packet::deserialize(&bytes).unwrap_err(), BitError::InvalidData);
}

#[test]
fn sequence_half_range_edge() {
    assert!(sequence_greater_than(32768, 0));
    assert!(!sequence_greater_than(0, 32768));
    assert_eq!(sequence_diff(32768, 0), 32768);
    assert_eq!(sequence_diff(0, 32768), -32768);
    assert!(!sequence_greater_than(7, 7));
    assert_eq!(sequence_diff(7, 7), 0);
}

#[test]
fn reason_codes() {
    assert_eq!(disconnect_reason::TIMEOUT, 0);
    assert_eq!(disconnect_reason::PROTOCOL_MISMATCH, 4);
    assert_eq!(deny_reason::SERVER_FULL, 0);
}
