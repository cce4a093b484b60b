//! Bit-packed serialization and a reliable-UDP protocol core for multiplayer games.
use vstd::prelude::*;

pub mod serialize;
pub mod packet;
pub mod reliability;
pub mod config;
pub mod channel;
pub mod socket;
pub mod connection;
pub mod layout;
pub mod messages;

pub use packet::{Packet, PacketHeader, PacketType};
pub use reliability::{ReliableEndpoint, SequenceBuffer};
pub use channel::{Channel, ChannelConfig, DeliveryOrder, Reliability};
pub use config::NetworkConfig;
pub use socket::{SocketError, SocketStats};
pub use connection::{Connection, ConnectionError, ConnectionState};
pub use serialize::{BitDeserialize, BitSerialize};
pub use serialize::byte_aligned::{ByteAlignedDeserialize, ByteAlignedSerialize, ByteReader};

verus! {

/// Counters of a connection.
#[derive(Debug, Clone, Copy, PartialEq, Eq, Structural)]
pub struct NetworkStats {
    pub packets_sent: u64,
    pub packets_received: u64,
    pub bytes_sent: u64,
    pub bytes_received: u64,
}

impl Default for NetworkStats {
    /// All counters zero.
    fn default() -> (r: Self)
        ensures
            r == (NetworkStats { packets_sent: 0, packets_received: 0, bytes_sent: 0, bytes_received: 0 }),
    {
        NetworkStats { packets_sent: 0, packets_received: 0, bytes_sent: 0, bytes_received: 0 }
    }
}

} // verus!
