use gbnet::channel::{ChannelConfig, ChannelError};
use gbnet::config::{DeliveryOrder, NetworkConfig, Reliability};
use gbnet::connection::{Connection, ConnectionError, ConnectionState};
use gbnet::packet::{disconnect_reason, Packet, PacketHeader, PacketType};
use gbnet::socket::SocketStats;
use gbnet::NetworkStats;

const PROTOCOL: u32 = 0x12345678;

fn header(sequence: u16) -> PacketHeader {
    PacketHeader { protocol_id: PROTOCOL, sequence, ack: 0, ack_bits: 0 }
}

fn datagram(packet_type: PacketType, sequence: u16, payload: Vec<u8>) -> Vec<u8> {
    Packet::new(header(sequence), packet_type).with_payload(payload).serialize().unwrap()
}

fn take_outgoing(conn: &mut Connection) -> Vec<Packet> {
    let mut out = Vec::new();
    while let Some(d) = conn.next_outgoing().unwrap() {
        assert_eq!(Packet::deserialize(&d.bytes).unwrap().packet_type, d.packet.packet_type);
        out.push(d.packet);
    }
    out
}

fn connected(config: NetworkConfig) -> Connection {
    let mut conn = Connection::new_with_salt(config, 77, 0);
    conn.connect(0).unwrap();
    conn.on_datagram(&datagram(PacketType::ConnectionChallenge { server_salt: 5 }, 0, vec![]), 1)
        .unwrap();
    conn.on_datagram(&datagram(PacketType::ConnectionAccept, 0, vec![]), 2).unwrap();
    assert!(conn.is_connected());
    take_outgoing(&mut conn);
    conn
}

#[test]
fn test_config_defaults() {
    let config = NetworkConfig::default();

    assert_eq!(config.protocol_id, 0x12345678);
    assert_eq!(config.max_clients, 64);
    assert_eq!(config.mtu, 1200);
    assert_eq!(config.max_channels, 8);

    let channel_config = config.default_channel_config;
    assert_eq!(channel_config.reliability, Reliability::Reliable);
    assert_eq!(channel_config.ordering, DeliveryOrder::Ordered);
}

#[test]
fn config_default_timings() {
    let config = NetworkConfig::default();
    assert_eq!(config.connection_timeout, 10_000);
    assert_eq!(config.keepalive_interval, 1_000);
    assert_eq!(config.connection_request_timeout, 5_000);
    assert_eq!(config.connection_request_max_retries, 5);
    assert_eq!(config.packet_buffer_size, 256);
    assert_eq!(config.max_sequence_distance, 32768);
    assert_eq!(config.reliable_retry_time, 100);
    assert_eq!(config.max_reliable_retries, 10);
    assert_eq!(config.default_channel_config, ChannelConfig::default());
}

#[test]
fn connection_connects_once() {
    let mut conn = Connection::new(NetworkConfig::default(), 0);
    assert!(!conn.is_connected());
    assert!(conn.connect(0).is_ok());
    assert!(matches!(conn.connect(0), Err(ConnectionError::AlreadyConnected)));
    let out = take_outgoing(&mut conn);
    assert_eq!(out.len(), 1);
    assert_eq!(out[0].packet_type, PacketType::ConnectionRequest);
    assert_eq!(out[0].header, PacketHeader { protocol_id: PROTOCOL, sequence: 0, ack: 0, ack_bits: 0 });
}

#[test]
fn connection_handshake_answers_challenge_with_salt() {
    let mut conn = Connection::new_with_salt(NetworkConfig::default(), 99, 0);
    conn.connect(0).unwrap();
    take_outgoing(&mut conn);
    conn.on_datagram(&datagram(PacketType::ConnectionChallenge { server_salt: 5 }, 0, vec![]), 1)
        .unwrap();
    let out = take_outgoing(&mut conn);
    assert_eq!(out.len(), 1);
    assert_eq!(out[0].packet_type, PacketType::ConnectionResponse { client_salt: 99 });
    assert!(!conn.is_connected());
    conn.on_datagram(&datagram(PacketType::ConnectionAccept, 0, vec![]), 2).unwrap();
    assert!(conn.is_connected());
}

#[test]
fn connection_accept_without_challenge_is_ignored() {
    let mut conn = Connection::new(NetworkConfig::default(), 0);
    conn.connect(0).unwrap();
    conn.on_datagram(&datagram(PacketType::ConnectionAccept, 0, vec![]), 1).unwrap();
    assert!(!conn.is_connected());
}

#[test]
fn connection_denied() {
    let mut conn = Connection::new(NetworkConfig::default(), 0);
    conn.connect(0).unwrap();
    let r = conn.on_datagram(&datagram(PacketType::ConnectionDeny { reason: 3 }, 0, vec![]), 1);
    assert!(matches!(r, Err(ConnectionError::ConnectionDenied(3))));
    assert!(conn.connect(2).is_ok());
}

#[test]
fn connection_rejects_other_protocol_and_garbage() {
    let mut conn = Connection::new(NetworkConfig::default(), 0);
    let other = Packet::new(
        PacketHeader { protocol_id: 1, sequence: 0, ack: 0, ack_bits: 0 },
        PacketType::KeepAlive,
    )
    .serialize()
    .unwrap();
    assert!(matches!(conn.on_datagram(&other, 1), Err(ConnectionError::ProtocolMismatch)));
    assert!(matches!(conn.on_datagram(&[], 1), Err(ConnectionError::InvalidPacket)));
    assert_eq!(conn.stats().packets_received, 0);
}

#[test]
fn connection_channels_when_not_connected() {
    let config = NetworkConfig { max_channels: 4, ..Default::default() };
    let mut connection = Connection::new(config, 0);

    let result = connection.send(0, b"test", true);
    assert!(matches!(result, Err(ConnectionError::NotConnected)));

    connection.connect(0).unwrap();

    assert!(connection.receive(0).is_none());
    assert!(connection.receive(3).is_none());
    assert!(connection.receive(4).is_none());
}

#[test]
fn connection_payload_reaches_its_channel() {
    let mut conn = connected(NetworkConfig::default());
    conn.on_datagram(
        &datagram(PacketType::Payload { channel: 2, is_fragment: false }, 1, b"hello".to_vec()),
        3,
    )
    .unwrap();
    assert_eq!(conn.receive(2).unwrap(), b"hello");
    assert!(conn.receive(2).is_none());
    assert!(conn.receive(1).is_none());
    let stats: NetworkStats = *conn.stats();
    assert_eq!(stats.packets_received, 3);
}

#[test]
fn connection_send_on_channels() {
    let config = NetworkConfig {
        max_channels: 2,
        default_channel_config: ChannelConfig { max_message_size: 4, ..Default::default() },
        ..Default::default()
    };
    let mut conn = connected(config);
    assert!(conn.send(1, b"abc", true).is_ok());
    assert!(matches!(conn.send(2, b"abc", true), Err(ConnectionError::InvalidPacket)));
    assert!(matches!(
        conn.send(0, b"abcde", true),
        Err(ConnectionError::ChannelError(ChannelError::MessageTooLarge))
    ));
    assert!(!conn.send_would_overflow(0, 3));
}

#[test]
fn connection_times_out_and_resets() {
    let mut conn = connected(NetworkConfig::default());
    assert!(conn.update(5_000).is_ok());
    let r = conn.update(20_000);
    assert!(matches!(r, Err(ConnectionError::Timeout)));
    assert!(!conn.is_connected());
    assert!(conn.next_outgoing().unwrap().is_none());
    assert!(conn.connect(20_001).is_ok());
}

#[test]
fn connection_keepalive_after_interval() {
    let mut conn = connected(NetworkConfig::default());
    conn.update(500).unwrap();
    assert!(take_outgoing(&mut conn).is_empty());
    conn.update(1_500).unwrap();
    let out = take_outgoing(&mut conn);
    assert_eq!(out.len(), 1);
    assert_eq!(out[0].packet_type, PacketType::KeepAlive);
}

#[test]
fn connection_request_retries_then_gives_up() {
    let config = NetworkConfig { connection_request_max_retries: 1, connection_timeout: 1_000_000, ..Default::default() };
    let mut conn = Connection::new(config, 0);
    conn.connect(0).unwrap();
    take_outgoing(&mut conn);
    assert!(conn.update(5_001).is_ok());
    assert_eq!(take_outgoing(&mut conn).len(), 1);
    assert!(matches!(conn.update(10_002), Err(ConnectionError::Timeout)));
    assert!(conn.connect(10_003).is_ok());
}

#[test]
fn connection_disconnect_resets() {
    let mut conn = connected(NetworkConfig::default());
    assert!(conn.disconnect(disconnect_reason::REQUESTED).is_ok());
    assert!(!conn.is_connected());
    assert!(conn.next_outgoing().unwrap().is_none());
    assert!(conn.disconnect(disconnect_reason::REQUESTED).is_ok());
}

#[test]
fn connection_remote_disconnect() {
    let mut conn = connected(NetworkConfig::default());
    conn.on_datagram(&datagram(PacketType::Disconnect { reason: 1 }, 1, vec![]), 3).unwrap();
    assert!(!conn.is_connected());
}

#[test]
fn connection_counts_sent_datagrams() {
    let mut conn = Connection::new(NetworkConfig::default(), 0);
    conn.connect(0).unwrap();
    let d = conn.next_outgoing().unwrap().unwrap();
    assert!(!conn.sent_would_panic(&d));
    conn.on_packet_sent(&d, 10);
    let stats = conn.stats();
    assert_eq!(stats.packets_sent, 1);
    assert_eq!(stats.bytes_sent, d.bytes.len() as u64);
}

#[test]
fn connection_panic_checks() {
    let mut conn = connected(NetworkConfig::default());
    assert!(!conn.update_would_overflow(100));
    let ok = datagram(PacketType::KeepAlive, 1, vec![]);
    assert!(!conn.datagram_would_panic(&ok));
    conn.on_datagram(&ok, 3).unwrap();
    let jump = datagram(PacketType::KeepAlive, 33, vec![]);
    assert!(conn.datagram_would_panic(&jump));
    let state = ConnectionState::Connected;
    assert_eq!(state, ConnectionState::Connected);
}

#[test]
fn socket_stats_counting() {
    let mut stats = SocketStats::default();
    stats.record_send(10, 5);
    stats.record_send(2, 6);
    stats.record_receive(7, 8);
    assert_eq!(stats.packets_sent, 2);
    assert_eq!(stats.bytes_sent, 12);
    assert_eq!(stats.last_send_time, Some(6));
    assert_eq!(stats.packets_received, 1);
    assert_eq!(stats.bytes_received, 7);
    assert_eq!(stats.last_receive_time, Some(8));
}

#[test]
fn connection_error_conversions() {
    let e: ConnectionError = ChannelError::BufferFull.into();
    assert!(matches!(e, ConnectionError::ChannelError(ChannelError::BufferFull)));
    let e: ConnectionError = gbnet::socket::SocketError::WouldBlock.into();
    assert!(matches!(e, ConnectionError::SocketError(gbnet::socket::SocketError::WouldBlock)));
}
