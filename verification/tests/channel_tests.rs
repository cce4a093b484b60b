use gbnet::channel::{Channel, ChannelConfig, ChannelError, DeliveryOrder, Reliability};

#[test]
fn channel_test_channel_send_receive() {
    let config = ChannelConfig::default();
    let mut channel = Channel::new(0, config);

    let data = b"Hello, World!";
    channel.send(data, true).unwrap();

    channel.on_packet_received(data.to_vec());

    let received = channel.receive().unwrap();
    assert_eq!(received, data);
}

#[test]
fn channel_test_channel_buffer_limits() {
    let config = ChannelConfig { message_buffer_size: 2, block_on_full: true, ..Default::default() };
    let mut channel = Channel::new(0, config);

    channel.send(b"msg1", false).unwrap();
    channel.send(b"msg2", false).unwrap();

    assert!(matches!(channel.send(b"msg3", false), Err(ChannelError::BufferFull)));
}

#[test]
fn test_channel_basic_operations() {
    let config = ChannelConfig {
        reliability: Reliability::Reliable,
        ordering: DeliveryOrder::Ordered,
        max_message_size: 1024,
        message_buffer_size: 10,
        block_on_full: true,
    };

    let mut channel = Channel::new(0, config);

    let data1 = b"Message 1";
    let data2 = b"Message 2";

    assert!(channel.send(data1, true).is_ok());
    assert!(channel.send(data2, false).is_ok());

    channel.on_packet_received(data1.to_vec());
    channel.on_packet_received(data2.to_vec());

    let received1 = channel.receive().unwrap();
    let received2 = channel.receive().unwrap();
    assert_eq!(received1, data1);
    assert_eq!(received2, data2);
    assert!(channel.receive().is_none());
}

#[test]
fn tests_test_channel_buffer_limits() {
    let config = ChannelConfig { message_buffer_size: 3, block_on_full: true, ..Default::default() };

    let mut channel = Channel::new(0, config);

    assert!(channel.send(b"msg1", false).is_ok());
    assert!(channel.send(b"msg2", false).is_ok());
    assert!(channel.send(b"msg3", false).is_ok());

    let result = channel.send(b"msg4", false);
    assert!(matches!(result, Err(ChannelError::BufferFull)));
}

#[test]
fn test_channel_message_too_large() {
    let config = ChannelConfig { max_message_size: 10, ..Default::default() };

    let mut channel = Channel::new(0, config);

    let small_msg = b"small";
    let large_msg = b"this message is too large";

    assert!(channel.send(small_msg, false).is_ok());
    assert!(matches!(channel.send(large_msg, false), Err(ChannelError::MessageTooLarge)));
}

#[test]
fn network_tests_test_channel_send_receive() {
    let config = ChannelConfig::default();
    let mut channel = Channel::new(0, config);

    let data = b"test message";
    channel.send(data, false).unwrap();

    channel.on_packet_received(data.to_vec());

    let received = channel.receive().unwrap();
    assert_eq!(received, data);
}

#[test]
fn test_channel_buffer_full() {
    let config = ChannelConfig { message_buffer_size: 2, block_on_full: true, ..Default::default() };

    let mut channel = Channel::new(0, config);

    assert!(channel.send(b"msg1", false).is_ok());
    assert!(channel.send(b"msg2", false).is_ok());
    assert!(matches!(channel.send(b"msg3", false), Err(ChannelError::BufferFull)));
}

#[test]
fn test_multi_channel_messages() -> Result<(), ChannelError> {
    let reliable_config = ChannelConfig { reliability: Reliability::Reliable, ..Default::default() };

    let unreliable_config =
        ChannelConfig { reliability: Reliability::Unreliable, ..Default::default() };

    let mut reliable_channel = Channel::new(0, reliable_config);
    let mut unreliable_channel = Channel::new(1, unreliable_config);

    reliable_channel.send(b"important data", true)?;
    unreliable_channel.send(b"position update", false)?;

    reliable_channel.on_packet_received(b"important data".to_vec());
    unreliable_channel.on_packet_received(b"position update".to_vec());

    assert_eq!(reliable_channel.receive().unwrap(), b"important data");
    assert_eq!(unreliable_channel.receive().unwrap(), b"position update");

    Ok(())
}

#[test]
fn channel_default_config_values() {
    let config = ChannelConfig::default();
    assert_eq!(config.reliability, Reliability::Reliable);
    assert_eq!(config.ordering, DeliveryOrder::Ordered);
    assert_eq!(config.max_message_size, 1024 * 1024);
    assert_eq!(config.message_buffer_size, 1024);
    assert!(!config.block_on_full);
}

#[test]
fn channel_drops_oldest_when_full_and_not_blocking() {
    let config = ChannelConfig { message_buffer_size: 2, block_on_full: false, ..Default::default() };
    let mut channel = Channel::new(3, config);
    channel.send(b"first", false).unwrap();
    channel.send(b"second", false).unwrap();
    channel.send(b"third", false).unwrap();
    let stats = channel.stats();
    assert_eq!(stats.send_buffer_size, 2);
    assert_eq!(stats.messages_sent, 3);
    assert_eq!(stats.bytes_sent, 5 + 6 + 5);
    assert_eq!(stats.id, 3);
    assert_eq!(channel.get_outgoing_message().unwrap(), b"second");
}

#[test]
fn channel_refused_message_changes_nothing() {
    let config = ChannelConfig { max_message_size: 3, ..Default::default() };
    let mut channel = Channel::new(0, config);
    assert!(matches!(channel.send(b"four", true), Err(ChannelError::MessageTooLarge)));
    let stats = channel.stats();
    assert_eq!(stats.messages_sent, 0);
    assert_eq!(stats.bytes_sent, 0);
    assert_eq!(stats.send_buffer_size, 0);
    assert!(channel.get_outgoing_message().is_none());
}

#[test]
fn channel_acknowledge_removes_only_matching_front() {
    let mut channel = Channel::new(0, ChannelConfig::default());
    channel.send(b"a", true).unwrap();
    channel.send(b"b", true).unwrap();
    channel.acknowledge_message(1);
    assert_eq!(channel.stats().send_buffer_size, 2);
    channel.acknowledge_message(0);
    assert_eq!(channel.stats().send_buffer_size, 1);
    assert_eq!(channel.get_outgoing_message().unwrap(), b"b");
    channel.acknowledge_message(1);
    assert_eq!(channel.stats().send_buffer_size, 0);
}

#[test]
fn channel_receive_counts_and_order() {
    let mut channel = Channel::new(0, ChannelConfig { ordering: DeliveryOrder::Sequenced, ..Default::default() });
    channel.on_packet_received(vec![1, 2, 3]);
    channel.on_packet_received(vec![4]);
    let stats = channel.stats();
    assert_eq!(stats.messages_received, 2);
    assert_eq!(stats.bytes_received, 4);
    assert_eq!(channel.receive().unwrap(), vec![1, 2, 3]);
    assert_eq!(channel.receive().unwrap(), vec![4]);
    assert!(channel.receive().is_none());
    assert_eq!(channel.stats().messages_received, 2);
}

#[test]
fn channel_reset_empties_queues_and_keeps_counters() {
    let mut channel = Channel::new(0, ChannelConfig::default());
    channel.send(b"x", true).unwrap();
    channel.on_packet_received(vec![9]);
    channel.reset();
    assert!(channel.get_outgoing_message().is_none());
    assert!(channel.receive().is_none());
    let stats = channel.stats();
    assert_eq!(stats.messages_sent, 1);
    assert_eq!(stats.messages_received, 1);
    assert_eq!(stats.send_buffer_size, 0);
    assert_eq!(stats.receive_buffer_size, 0);
}

#[test]
fn channel_reliability_flag() {
    let reliable = Channel::new(0, ChannelConfig::default());
    let unreliable = Channel::new(
        1,
        ChannelConfig { reliability: Reliability::UnreliableOrdered, ..Default::default() },
    );
    assert!(reliable.is_reliable());
    assert!(!unreliable.is_reliable());
}

#[test]
fn channel_update_keeps_queue() {
    let mut channel = Channel::new(0, ChannelConfig::default());
    channel.send(b"one", true).unwrap();
    channel.send(b"two", false).unwrap();
    for _ in 0..7 {
        channel.update();
    }
    assert_eq!(channel.stats().send_buffer_size, 2);
    assert_eq!(channel.get_outgoing_message().unwrap(), b"one");
}

#[test]
fn channel_overflow_checks() {
    let channel = Channel::new(0, ChannelConfig { max_message_size: 4, ..Default::default() });
    assert!(!channel.send_would_overflow(3));
    assert!(!channel.send_would_overflow(10));
    assert!(!channel.receive_would_overflow(100));
}
