use gbnet::reliability::{ReliableEndpoint, SequenceBuffer};

#[test]
fn reliability_test_sequence_buffer() {
    let mut buffer = SequenceBuffer::new(32);

    buffer.insert(0, true);
    buffer.insert(1, true);
    buffer.insert(2, true);

    assert!(buffer.contains(0));
    assert!(buffer.contains(1));
    assert!(buffer.contains(2));
    assert!(!buffer.contains(3));
}

#[test]
fn test_reliable_endpoint() {
    let mut endpoint = ReliableEndpoint::new(256);
    let now: u64 = 1_000;

    let seq1 = endpoint.next_sequence();
    let seq2 = endpoint.next_sequence();
    endpoint.on_packet_sent(seq1, now, vec![1, 2, 3]);
    endpoint.on_packet_sent(seq2, now, vec![4, 5, 6]);

    endpoint.process_acks(seq1, 0);

    let stats = endpoint.stats();
    assert_eq!(stats.packets_in_flight, 1);
}

#[test]
fn test_reliable_endpoint_basic() {
    let mut endpoint = ReliableEndpoint::new(256);

    assert_eq!(endpoint.next_sequence(), 0);
    assert_eq!(endpoint.next_sequence(), 1);
    assert_eq!(endpoint.next_sequence(), 2);

    let now: u64 = 1_000;
    endpoint.on_packet_sent(0, now, vec![1, 2, 3]);
    endpoint.on_packet_sent(1, now, vec![4, 5, 6]);

    let stats = endpoint.stats();
    assert_eq!(stats.packets_in_flight, 2);

    endpoint.process_acks(0, 0);
    let stats = endpoint.stats();
    assert_eq!(stats.packets_in_flight, 1);
}

#[test]
fn test_reliable_endpoint_ack_bits() {
    let mut endpoint = ReliableEndpoint::new(256);
    let now: u64 = 1_000;

    endpoint.on_packet_received(0, now);
    endpoint.on_packet_received(1, now);
    endpoint.on_packet_received(2, now);
    endpoint.on_packet_received(4, now);

    let (ack, ack_bits) = endpoint.get_ack_info();
    assert_eq!(ack, 4);
    assert_eq!(ack_bits & 0b1011, 0b1011);
}

#[test]
fn reliable_endpoint_jump_marks_previous_newest() {
    let mut endpoint = ReliableEndpoint::new(256);
    endpoint.on_packet_received(10, 0);
    assert_eq!(endpoint.get_ack_info(), (10, 1 | (1 << 9)));
    endpoint.on_packet_received(15, 0);
    // Shifted by 5, with bit 0 and bit 4, the bit of 10, set.
    assert_eq!(endpoint.get_ack_info(), (15, (1 << 5) | (1 << 14) | 1 | (1 << 4)));
}

#[test]
fn test_reliable_endpoint_retransmission() {
    let mut endpoint = ReliableEndpoint::new(256);
    let now: u64 = 1_000;

    endpoint.on_packet_sent(0, now, vec![1, 2, 3]);

    let retries = endpoint.update(now);
    assert_eq!(retries.len(), 0);

    let later = now + 150;
    let retries = endpoint.update(later);
    assert_eq!(retries.len(), 1);
    assert_eq!(retries[0].0, 0);
    assert_eq!(retries[0].1, vec![1, 2, 3]);
}

#[test]
fn tests_test_sequence_buffer() {
    let mut buffer: SequenceBuffer<String> = SequenceBuffer::new(32);

    buffer.insert(0, "zero".to_string());
    buffer.insert(1, "one".to_string());
    buffer.insert(2, "two".to_string());

    assert!(buffer.contains(0));
    assert!(buffer.contains(1));
    assert!(buffer.contains(2));
    assert!(!buffer.contains(3));

    assert_eq!(buffer.get(0).unwrap(), "zero");
    assert_eq!(buffer.get(1).unwrap(), "one");
    assert_eq!(buffer.get(2).unwrap(), "two");
    assert!(buffer.get(3).is_none());

    buffer.insert(40, "forty".to_string());
    assert!(!buffer.contains(0));
    assert!(buffer.contains(40));
}

#[test]
fn network_tests_test_reliable_endpoint_tracking() {
    let mut endpoint = ReliableEndpoint::new(256);
    let now: u64 = 1_000;

    endpoint.on_packet_sent(0, now, vec![1, 2, 3]);
    endpoint.on_packet_sent(1, now, vec![4, 5, 6]);

    let stats = endpoint.stats();
    assert_eq!(stats.packets_in_flight, 2);

    endpoint.process_acks(0, 0);
    let stats = endpoint.stats();
    assert_eq!(stats.packets_in_flight, 1);
}

#[test]
fn test_reliable_endpoint_sequences() {
    let mut endpoint = ReliableEndpoint::new(256);

    assert_eq!(endpoint.next_sequence(), 0);
    assert_eq!(endpoint.next_sequence(), 1);
    assert_eq!(endpoint.next_sequence(), 2);

    for i in 3..10 {
        assert_eq!(endpoint.next_sequence(), i);
    }
}

#[test]
fn test_sequence_buffer_operations() {
    let mut buffer: SequenceBuffer<u32> = SequenceBuffer::new(16);

    buffer.insert(0, 100);
    buffer.insert(1, 200);
    buffer.insert(2, 300);

    assert!(buffer.contains(0));
    assert!(buffer.contains(1));
    assert!(buffer.contains(2));
    assert!(!buffer.contains(3));

    assert_eq!(*buffer.get(0).unwrap(), 100);
    assert_eq!(*buffer.get(1).unwrap(), 200);
    assert_eq!(*buffer.get(2).unwrap(), 300);
}

#[test]
fn sequence_buffer_advancing_clears_passed_slots() {
    let mut buffer: SequenceBuffer<u8> = SequenceBuffer::new(4);
    buffer.insert(0, 1);
    buffer.insert(1, 2);
    buffer.insert(3, 4);
    // Advancing from 3 to 5 empties slots 0 and 1 before storing in slot 1.
    buffer.insert(5, 6);
    assert!(!buffer.contains(0));
    assert_eq!(*buffer.get(5).unwrap(), 6);
    assert_eq!(*buffer.get(3).unwrap(), 4);
    // An older sequence number does not move the ring.
    buffer.insert(2, 3);
    assert_eq!(*buffer.get(2).unwrap(), 3);
    assert_eq!(*buffer.get(5).unwrap(), 6);
}

#[test]
fn reliable_endpoint_acks_with_bits() {
    let mut endpoint = ReliableEndpoint::new(64);
    for s in 0..5u16 {
        endpoint.on_packet_sent(s, 0, vec![s as u8]);
    }
    // Acknowledge 4, and 3 and 1 through bits 0 and 2.
    endpoint.process_acks(4, 0b101);
    assert_eq!(endpoint.stats().packets_in_flight, 2);
    endpoint.process_acks(2, 0b10);
    assert_eq!(endpoint.stats().packets_in_flight, 0);
}

#[test]
fn reliable_endpoint_gives_up_after_max_retries() {
    let mut endpoint = ReliableEndpoint::new(64);
    endpoint.on_packet_sent(7, 0, vec![7]);
    let mut now: u64 = 0;
    for _ in 0..10 {
        now += 100;
        let resent = endpoint.update(now);
        assert_eq!(resent.len(), 1);
        assert_eq!(resent[0].0, 7);
    }
    now += 100;
    let resent = endpoint.update(now);
    assert!(resent.is_empty());
    assert_eq!(endpoint.stats().packets_in_flight, 0);
}

#[test]
fn reliable_endpoint_older_packet_sets_its_bit() {
    let mut endpoint = ReliableEndpoint::new(64);
    endpoint.on_packet_received(10, 0);
    // Jumping from 0 to 10 sets bit 0 and bit 9, the bit of 0.
    assert_eq!(endpoint.get_ack_info(), (10, 1 | (1 << 9)));
    endpoint.on_packet_received(7, 0);
    let (ack, bits) = endpoint.get_ack_info();
    assert_eq!(ack, 10);
    assert_eq!(bits, 1 | (1 << 2) | (1 << 9));
    // A repeated sequence number changes nothing.
    endpoint.on_packet_received(7, 0);
    assert_eq!(endpoint.get_ack_info(), (10, 1 | (1 << 2) | (1 << 9)));
}

#[test]
fn reliable_endpoint_far_jump_resets_bits() {
    let mut endpoint = ReliableEndpoint::new(256);
    endpoint.on_packet_received(1, 0);
    endpoint.on_packet_received(100, 0);
    assert_eq!(endpoint.get_ack_info(), (100, 1));
    assert!(endpoint.receive_would_panic(132));
    assert!(!endpoint.receive_would_panic(131));
}

#[test]
fn reliable_endpoint_stats_counts() {
    let mut endpoint = ReliableEndpoint::new(16);
    endpoint.next_sequence();
    endpoint.on_packet_received(3, 0);
    let stats = endpoint.stats();
    assert_eq!(stats.local_sequence, 1);
    assert_eq!(stats.remote_sequence, 3);
    assert_eq!(stats.packets_in_flight, 0);
}

#[test]
fn reliable_endpoint_in_order_keeps_acks() {
    let mut endpoint = ReliableEndpoint::new(256);
    endpoint.on_packet_received(1, 0);
    endpoint.on_packet_received(2, 0);
    endpoint.on_packet_received(3, 0);
    // Bit i stands for 3 - (i + 1): 2, 1 and 0 are all acknowledged.
    assert_eq!(endpoint.get_ack_info(), (3, 0b111));
    for sequence in 4u16..=40 {
        endpoint.on_packet_received(sequence, 0);
    }
    // After 40 in order, the 32 numbers before it are acknowledged.
    assert_eq!(endpoint.get_ack_info(), (40, u32::MAX));
}
