//! Settings of a connection and of its channels. Durations are in milliseconds.
use vstd::prelude::*;

verus! {

/// How a channel treats loss.
#[derive(Debug, Clone, Copy, PartialEq, Eq, Structural)]
pub enum Reliability {
    Unreliable,
    Reliable,
    UnreliableOrdered,
}

/// In what order a channel hands received messages out.
#[derive(Debug, Clone, Copy, PartialEq, Eq, Structural)]
pub enum DeliveryOrder {
    Unordered,
    Ordered,
    Sequenced,
}

/// The settings of one channel.
#[derive(Debug, Clone, Copy, PartialEq, Eq, Structural)]
pub struct ChannelConfig {
    pub reliability: Reliability,
    pub ordering: DeliveryOrder,
    /// Longer messages are refused.
    pub max_message_size: usize,
    /// How many messages may wait to be sent.
    pub message_buffer_size: usize,
    /// When the send queue is full: refuse a new message (`true`) or drop the oldest.
    pub block_on_full: bool,
}

impl Default for ChannelConfig {
    /// Reliable and ordered, messages up to 1 MiB, 1024 of them queued, dropping the
    /// oldest when full.
    fn default() -> (r: Self)
        ensures
            r == (ChannelConfig {
                reliability: Reliability::Reliable,
                ordering: DeliveryOrder::Ordered,
                max_message_size: 1048576,
                message_buffer_size: 1024,
                block_on_full: false,
            }),
    {
        ChannelConfig {
            reliability: Reliability::Reliable,
            ordering: DeliveryOrder::Ordered,
            max_message_size: 1024 * 1024,
            message_buffer_size: 1024,
            block_on_full: false,
        }
    }
}

/// The settings of a connection. Durations are in milliseconds.
#[derive(Debug, Clone, Copy, PartialEq, Eq, Structural)]
pub struct NetworkConfig {
    pub protocol_id: u32,
    pub max_clients: usize,
    /// Silence after which a connection is dropped.
    pub connection_timeout: u64,
    /// Silence after which a connected side sends a keep-alive.
    pub keepalive_interval: u64,
    /// How long a connection request waits for an answer before it is sent again.
    pub connection_request_timeout: u64,
    /// How often a connection request is sent again before connecting fails.
    pub connection_request_max_retries: u32,
    pub mtu: usize,
    pub fragment_threshold: usize,
    pub fragment_timeout: u64,
    pub max_fragments: usize,
    /// How many received sequence numbers the reliability layer remembers.
    pub packet_buffer_size: usize,
    pub ack_buffer_size: usize,
    pub max_sequence_distance: u16,
    pub reliable_retry_time: u64,
    pub max_reliable_retries: u32,
    /// How many channels a connection opens.
    pub max_channels: usize,
    /// The settings each channel opens with.
    pub default_channel_config: ChannelConfig,
}

/// The default connection settings.
pub open spec fn default_network_config() -> NetworkConfig {
    NetworkConfig {
        protocol_id: 0x12345678,
        max_clients: 64,
        connection_timeout: 10000,
        keepalive_interval: 1000,
        connection_request_timeout: 5000,
        connection_request_max_retries: 5,
        mtu: 1200,
        fragment_threshold: 1024,
        fragment_timeout: 5000,
        max_fragments: 256,
        packet_buffer_size: 256,
        ack_buffer_size: 256,
        max_sequence_distance: 32768,
        reliable_retry_time: 100,
        max_reliable_retries: 10,
        max_channels: 8,
        default_channel_config: ChannelConfig {
            reliability: Reliability::Reliable,
            ordering: DeliveryOrder::Ordered,
            max_message_size: 1048576,
            message_buffer_size: 1024,
            block_on_full: false,
        },
    }
}

impl Default for NetworkConfig {
    /// Protocol 0x12345678, 64 clients, a 10 s timeout, a keep-alive every second,
    /// connection requests retried after 5 s at most 5 times, an MTU of 1200, 256 packets
    /// remembered, and 8 channels with the default channel settings.
    fn default() -> (r: Self)
        ensures
            r == default_network_config(),
    {
        NetworkConfig {
            protocol_id: 0x12345678,
            max_clients: 64,
            connection_timeout: 10000,
            keepalive_interval: 1000,
            connection_request_timeout: 5000,
            connection_request_max_retries: 5,
            mtu: 1200,
            fragment_threshold: 1024,
            fragment_timeout: 5000,
            max_fragments: 256,
            packet_buffer_size: 256,
            ack_buffer_size: 256,
            max_sequence_distance: 32768,
            reliable_retry_time: 100,
            max_reliable_retries: 10,
            max_channels: 8,
            default_channel_config: ChannelConfig::default(),
        }
    }
}

} // verus!
