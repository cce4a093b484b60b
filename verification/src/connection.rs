//! The connection state machine. The program around it owns the socket: it hands the
//! connection the current time and each datagram that arrives, and sends each datagram
//! that the connection puts out. Times are in milliseconds.
use vstd::prelude::*;
use std::collections::VecDeque;
use crate::NetworkStats;
use crate::channel::{Channel, ChannelError};
use crate::config::NetworkConfig;
use crate::packet::{
    Packet, PacketHeader, PacketType, disconnect_reason, is_packet_encoding, packet_type_ok,
    sequence_greater_than, spec_packet_read, spec_sequence_greater_than,
};
use crate::reliability::{ReliableEndpoint, acked_by, elapsed};
use crate::socket::SocketError;

verus! {

/// Where a connection stands.
#[derive(Debug, Clone, Copy, PartialEq, Eq, Structural)]
pub enum ConnectionState {
    Disconnected,
    /// A connection request was sent; waiting for the challenge.
    Connecting,
    /// The challenge was answered; waiting for the acceptance.
    ChallengeResponse,
    Connected,
    Disconnecting,
}

/// Why a connection operation failed.
#[derive(Debug)]
pub enum ConnectionError {
    NotConnected,
    AlreadyConnected,
    ConnectionDenied(u8),
    Timeout,
    ProtocolMismatch,
    InvalidPacket,
    SocketError(SocketError),
    ChannelError(ChannelError),
}

impl From<SocketError> for ConnectionError {
    fn from(err: SocketError) -> (r: Self) {
        ConnectionError::SocketError(err)
    }
}

impl vstd::std_specs::convert::FromSpecImpl<SocketError> for ConnectionError {
    open spec fn obeys_from_spec() -> bool {
        true
    }

    open spec fn from_spec(err: SocketError) -> Self {
        ConnectionError::SocketError(err)
    }
}

impl From<ChannelError> for ConnectionError {
    fn from(err: ChannelError) -> (r: Self) {
        ConnectionError::ChannelError(err)
    }
}

impl vstd::std_specs::convert::FromSpecImpl<ChannelError> for ConnectionError {
    open spec fn obeys_from_spec() -> bool {
        true
    }

    open spec fn from_spec(err: ChannelError) -> Self {
        ConnectionError::ChannelError(err)
    }
}

/// A packet as the contracts see it: header, type and payload.
pub type PacketModel = (PacketHeader, PacketType, Seq<u8>);

/// What the contracts know of a connection.
pub struct ConnectionView {
    pub config: NetworkConfig,
    pub state: ConnectionState,
    pub client_salt: u64,
    pub server_salt: u64,
    pub last_send_time: u64,
    pub last_recv_time: u64,
    pub start_time: Option<u64>,
    pub request_time: Option<u64>,
    pub retry_count: u32,
    pub local_sequence: u16,
    pub remote_sequence: u16,
    pub ack_bits: u32,
    pub reliability: ReliableEndpoint,
    pub channels: Seq<Channel>,
    /// Packets waiting to be sent, oldest first.
    pub send_queue: Seq<PacketModel>,
    pub recv_queue: Seq<PacketModel>,
    pub stats: NetworkStats,
}

/// One side of a connection.
pub struct Connection {
    config: NetworkConfig,
    state: ConnectionState,
    client_salt: u64,
    server_salt: u64,
    last_packet_send_time: u64,
    last_packet_recv_time: u64,
    connection_start_time: Option<u64>,
    connection_request_time: Option<u64>,
    connection_retry_count: u32,
    local_sequence: u16,
    remote_sequence: u16,
    ack_bits: u32,
    reliability: ReliableEndpoint,
    channels: Vec<Channel>,
    send_queue: VecDeque<Packet>,
    recv_queue: VecDeque<Packet>,
    stats: NetworkStats,
}

/// A packet taken off the send queue, with its bytes, for the program to send.
pub struct OutgoingDatagram {
    pub packet: Packet,
    pub bytes: Vec<u8>,
}

impl View for Connection {
    type V = ConnectionView;

    closed spec fn view(&self) -> ConnectionView {
        ConnectionView {
            config: self.config,
            state: self.state,
            client_salt: self.client_salt,
            server_salt: self.server_salt,
            last_send_time: self.last_packet_send_time,
            last_recv_time: self.last_packet_recv_time,
            start_time: self.connection_start_time,
            request_time: self.connection_request_time,
            retry_count: self.connection_retry_count,
            local_sequence: self.local_sequence,
            remote_sequence: self.remote_sequence,
            ack_bits: self.ack_bits,
            reliability: self.reliability,
            channels: self.channels@,
            send_queue: self.send_queue@.map_values(|p: Packet| p@),
            recv_queue: self.recv_queue@.map_values(|p: Packet| p@),
            stats: self.stats,
        }
    }
}

/// The header of the packets a connection sends: its protocol, its sequence number and
/// its acknowledgements.
pub open spec fn header_of(v: ConnectionView) -> PacketHeader {
    PacketHeader {
        protocol_id: v.config.protocol_id,
        sequence: v.local_sequence,
        ack: v.remote_sequence,
        ack_bits: v.ack_bits,
    }
}

/// A connection request: the protocol and nothing else.
pub open spec fn request_packet(v: ConnectionView) -> PacketModel {
    (
        PacketHeader { protocol_id: v.config.protocol_id, sequence: 0, ack: 0, ack_bits: 0 },
        PacketType::ConnectionRequest,
        Seq::empty(),
    )
}

/// `n` is `o` after a reset: disconnected, with no pending request, sequence numbers and
/// acknowledgements restarted, the queues emptied and every channel reset.
pub open spec fn is_reset_of(n: ConnectionView, o: ConnectionView) -> bool {
    &&& n == ConnectionView {
        state: ConnectionState::Disconnected,
        start_time: None,
        request_time: None,
        local_sequence: 0,
        remote_sequence: 0,
        ack_bits: 0,
        send_queue: Seq::empty(),
        recv_queue: Seq::empty(),
        channels: n.channels,
        ..o
    }
    &&& n.channels.len() == o.channels.len()
    &&& forall|i: int| 0 <= i < n.channels.len() ==> #[trigger] n.channels[i].is_reset_of(&o.channels[i])
}

/// No answer came within the connection timeout.
pub open spec fn timed_out(v: ConnectionView, now: u64) -> bool {
    v.state != ConnectionState::Disconnected && elapsed(now, v.last_recv_time)
        > v.config.connection_timeout
}

/// A connection request waited longer than the request timeout.
pub open spec fn request_due(v: ConnectionView, now: u64) -> bool {
    &&& v.state == ConnectionState::Connecting
    &&& v.request_time matches Some(t) && elapsed(now, t) > v.config.connection_request_timeout
}

/// Nothing was sent for longer than the keep-alive interval.
pub open spec fn keepalive_due(v: ConnectionView, now: u64) -> bool {
    elapsed(now, v.last_send_time) > v.config.keepalive_interval
}

impl Connection {
    /// The reliability layer remembers as many received sequence numbers as configured.
    pub open spec fn wf(&self) -> bool {
        &&& self@.reliability.wf()
        &&& self@.reliability.spec_received().spec_size() == self@.config.packet_buffer_size
    }

    /// A disconnected connection with `config`, the given salt, `now` as the time of the
    /// last send and receive, a fresh reliability layer and `config.max_channels` fresh
    /// channels numbered from 0 (modulo 256).
    pub open spec fn is_fresh(&self, config: NetworkConfig, client_salt: u64, now: u64) -> bool {
        &&& self@ == ConnectionView {
            config,
            state: ConnectionState::Disconnected,
            client_salt,
            server_salt: 0,
            last_send_time: now,
            last_recv_time: now,
            start_time: None,
            request_time: None,
            retry_count: 0,
            local_sequence: 0,
            remote_sequence: 0,
            ack_bits: 0,
            reliability: self@.reliability,
            channels: self@.channels,
            send_queue: Seq::empty(),
            recv_queue: Seq::empty(),
            stats: NetworkStats {
                packets_sent: 0,
                packets_received: 0,
                bytes_sent: 0,
                bytes_received: 0,
            },
        }
        &&& self@.reliability.is_fresh(config.packet_buffer_size as nat)
        &&& self@.channels.len() == config.max_channels
        &&& forall|i: int|
            0 <= i < self@.channels.len() ==> #[trigger] self@.channels[i].is_fresh(
                (i % 256) as u8,
                config.default_channel_config,
            )
    }

    /// A new connection with a random client salt.
    pub fn new(config: NetworkConfig, now: u64) -> (r: Self)
        ensures
            r.wf(),
            r.is_fresh(config, r@.client_salt, now),
    {
        Self::new_with_salt(config, random_salt(), now)
    }

    /// A new connection that answers challenges with `client_salt`.
    pub fn new_with_salt(config: NetworkConfig, client_salt: u64, now: u64) -> (r: Self)
        ensures
            r.wf(),
            r.is_fresh(config, client_salt, now),
    {
        let mut channels: Vec<Channel> = Vec::with_capacity(config.max_channels);
        let channel_config = config.default_channel_config;
        let mut i: usize = 0;
        while i < config.max_channels
            invariant
                i <= config.max_channels,
                channel_config == config.default_channel_config,
                channels@.len() == i,
                forall|j: int|
                    0 <= j < i ==> #[trigger] channels@[j].is_fresh((j % 256) as u8, channel_config),
            decreases config.max_channels - i,
        {
            channels.push(Channel::new((i % 256) as u8, channel_config));
            i = i + 1;
        }
        let packet_buffer_size = config.packet_buffer_size;
        let r = Self {
            config,
            state: ConnectionState::Disconnected,
            client_salt,
            server_salt: 0,
            last_packet_send_time: now,
            last_packet_recv_time: now,
            connection_start_time: None,
            connection_request_time: None,
            connection_retry_count: 0,
            local_sequence: 0,
            remote_sequence: 0,
            ack_bits: 0,
            reliability: ReliableEndpoint::new(packet_buffer_size),
            channels,
            send_queue: VecDeque::new(),
            recv_queue: VecDeque::new(),
            stats: NetworkStats::default(),
        };
        proof {
            assert(r@.send_queue =~= Seq::<PacketModel>::empty());
            assert(r@.recv_queue =~= Seq::<PacketModel>::empty());
        }
        r
    }

    /// Starts connecting: queues a connection request and waits for the challenge.
    /// Refused unless disconnected.
    pub fn connect(&mut self, now: u64) -> (r: Result<(), ConnectionError>)
        ensures
            old(self)@.state != ConnectionState::Disconnected ==> {
                &&& r == Err::<(), ConnectionError>(ConnectionError::AlreadyConnected)
                &&& final(self)@ == old(self)@
            },
            old(self)@.state == ConnectionState::Disconnected ==> {
                &&& r is Ok
                &&& final(self)@ == (ConnectionView {
                    state: ConnectionState::Connecting,
                    request_time: Some(now),
                    retry_count: 0,
                    send_queue: old(self)@.send_queue.push(request_packet(old(self)@)),
                    ..old(self)@
                })
            },
    {
        if self.state != ConnectionState::Disconnected {
            return Err(ConnectionError::AlreadyConnected);
        }
        self.state = ConnectionState::Connecting;
        self.connection_request_time = Some(now);
        self.connection_retry_count = 0;
        self.send_connection_request();
        Ok(())
    }

    /// Leaves the connection: a disconnect packet with `reason` is queued, then the
    /// connection is reset, which empties the queue again. Nothing happens when already
    /// disconnected.
    pub fn disconnect(&mut self, reason: u8) -> (r: Result<(), ConnectionError>)
        ensures
            r is Ok,
            old(self)@.state == ConnectionState::Disconnected ==> final(self)@ == old(self)@,
            old(self)@.state != ConnectionState::Disconnected ==> is_reset_of(
                final(self)@,
                old(self)@,
            ),
    {
        if self.state == ConnectionState::Disconnected {
            return Ok(());
        }
        let header = self.create_header();
        let packet = Packet::new(header, PacketType::Disconnect { reason });
        self.send_queue.push_back(packet);
        self.state = ConnectionState::Disconnecting;
        self.reset_connection();
        Ok(())
    }

    /// An update at `now` would count one retry too many.
    pub open spec fn update_overflows(&self, now: u64) -> bool {
        &&& !timed_out(self@, now)
        &&& request_due(self@, now)
        &&& self@.retry_count == u32::MAX
    }

    /// Whether an update at `now` would count one retry too many.
    pub fn update_would_overflow(&self, now: u64) -> (r: bool)
        ensures
            r == self.update_overflows(now),
    {
        if self.state == ConnectionState::Disconnected {
            return false;
        }
        let time_since_recv = if now >= self.last_packet_recv_time {
            now - self.last_packet_recv_time
        } else {
            0
        };
        if time_since_recv > self.config.connection_timeout {
            return false;
        }
        if self.state != ConnectionState::Connecting {
            return false;
        }
        match self.connection_request_time {
            Some(request_time) => {
                let waited = if now >= request_time {
                    now - request_time
                } else {
                    0
                };
                waited > self.config.connection_request_timeout && self.connection_retry_count
                    == u32::MAX
            },
            None => false,
        }
    }

    /// The timers of an update at `now`, before the queued packets go out and the
    /// received ones come in. After the connection timeout the connection is reset and
    /// the update fails. While connecting, an overdue request is counted and sent again,
    /// or the connection gives up and fails once the retries are used up. While
    /// connected, a keep-alive is queued after the keep-alive interval, and overdue
    /// reliable packets are handled by the reliability layer.
    pub fn update(&mut self, now: u64) -> (r: Result<(), ConnectionError>)
        requires
            !old(self).update_overflows(now),
            old(self).wf(),
        ensures
            final(self).wf(),
            timed_out(old(self)@, now) ==> {
                &&& r == Err::<(), ConnectionError>(ConnectionError::Timeout)
                &&& is_reset_of(final(self)@, old(self)@)
            },
            !timed_out(old(self)@, now) && request_due(old(self)@, now) ==> {
                let retries = (old(self)@.retry_count + 1) as u32;
                if retries > old(self)@.config.connection_request_max_retries {
                    &&& r == Err::<(), ConnectionError>(ConnectionError::Timeout)
                    &&& final(self)@ == (ConnectionView {
                        state: ConnectionState::Disconnected,
                        retry_count: retries,
                        ..old(self)@
                    })
                } else {
                    &&& r is Ok
                    &&& final(self)@ == (ConnectionView {
                        retry_count: retries,
                        request_time: Some(now),
                        send_queue: old(self)@.send_queue.push(request_packet(old(self)@)),
                        ..old(self)@
                    })
                }
            },
            !timed_out(old(self)@, now) && old(self)@.state == ConnectionState::Connected ==> {
                &&& r is Ok
                &&& final(self)@ == (ConnectionView {
                    send_queue: if keepalive_due(old(self)@, now) {
                        old(self)@.send_queue.push(
                            (header_of(old(self)@), PacketType::KeepAlive, Seq::empty()),
                        )
                    } else {
                        old(self)@.send_queue
                    },
                    reliability: final(self)@.reliability,
                    ..old(self)@
                })
                &&& final(self)@.reliability.spec_sent() == old(
                    self,
                )@.reliability.sent_after_update(now)
                &&& final(self)@.reliability.same_but_sent(&old(self)@.reliability)
            },
            !timed_out(old(self)@, now) && !request_due(old(self)@, now) && old(self)@.state
                != ConnectionState::Connected ==> r is Ok && final(self)@ == old(self)@,
    {
        if self.state != ConnectionState::Disconnected {
            let time_since_recv = if now >= self.last_packet_recv_time {
                now - self.last_packet_recv_time
            } else {
                0
            };
            if time_since_recv > self.config.connection_timeout {
                let _ = self.disconnect(disconnect_reason::TIMEOUT);
                return Err(ConnectionError::Timeout);
            }
        }
        match self.state {
            ConnectionState::Connecting => {
                if let Some(request_time) = self.connection_request_time {
                    let waited = if now >= request_time {
                        now - request_time
                    } else {
                        0
                    };
                    if waited > self.config.connection_request_timeout {
                        self.connection_retry_count = self.connection_retry_count + 1;
                        if self.connection_retry_count
                            > self.config.connection_request_max_retries {
                            self.state = ConnectionState::Disconnected;
                            return Err(ConnectionError::Timeout);
                        }
                        self.send_connection_request();
                        self.connection_request_time = Some(now);
                    }
                }
            },
            ConnectionState::Connected => {
                let time_since_send = if now >= self.last_packet_send_time {
                    now - self.last_packet_send_time
                } else {
                    0
                };
                if time_since_send > self.config.keepalive_interval {
                    self.send_keepalive();
                }
                let _ = self.reliability.update(now);
            },
            _ => {},
        }
        Ok(())
    }

    /// Sending on `channel_id` would overflow that channel's counters.
    pub open spec fn send_overflows(&self, channel_id: u8, len: nat) -> bool {
        &&& self@.state == ConnectionState::Connected
        &&& channel_id < self@.channels.len()
        &&& self@.channels[channel_id as int].send_overflows(len)
    }

    /// Whether sending `len` bytes on `channel_id` would overflow that channel's counters.
    pub fn send_would_overflow(&self, channel_id: u8, len: usize) -> (r: bool)
        ensures
            r == self.send_overflows(channel_id, len as nat),
    {
        self.state == ConnectionState::Connected && (channel_id as usize) < self.channels.len()
            && self.channels[channel_id as usize].send_would_overflow(len)
    }

    /// Queues `data` on channel `channel_id`. Refused unless connected, on a channel that
    /// does not exist, or when the channel refuses it.
    pub fn send(&mut self, channel_id: u8, data: &[u8], reliable: bool) -> (r: Result<
        (),
        ConnectionError,
    >)
        requires
            !old(self).send_overflows(channel_id, data@.len()),
        ensures
            old(self)@.state != ConnectionState::Connected ==> {
                &&& r == Err::<(), ConnectionError>(ConnectionError::NotConnected)
                &&& final(self)@ == old(self)@
            },
            old(self)@.state == ConnectionState::Connected && channel_id >= old(
                self,
            )@.channels.len() ==> {
                &&& r == Err::<(), ConnectionError>(ConnectionError::InvalidPacket)
                &&& final(self)@ == old(self)@
            },
            old(self)@.state == ConnectionState::Connected && channel_id < old(
                self,
            )@.channels.len() ==> {
                let c = old(self)@.channels[channel_id as int];
                &&& c.send_too_large(data@.len()) ==> r == Err::<(), ConnectionError>(
                    ConnectionError::ChannelError(ChannelError::MessageTooLarge),
                )
                &&& c.send_blocked(data@.len()) ==> r == Err::<(), ConnectionError>(
                    ConnectionError::ChannelError(ChannelError::BufferFull),
                )
                &&& r is Err ==> final(self)@ == old(self)@
                &&& c.send_accepted(data@.len()) ==> {
                    &&& r is Ok
                    &&& final(self)@ == (ConnectionView {
                        channels: old(self)@.channels.update(
                            channel_id as int,
                            final(self)@.channels[channel_id as int],
                        ),
                        ..old(self)@
                    })
                    &&& final(self)@.channels[channel_id as int].accepted_from(&c, data@, reliable)
                }
            },
    {
        if self.state != ConnectionState::Connected {
            return Err(ConnectionError::NotConnected);
        }
        if channel_id as usize >= self.channels.len() {
            return Err(ConnectionError::InvalidPacket);
        }
        let result = self.channels[channel_id as usize].send(data, reliable);
        proof {
            assert(self@.channels =~= old(self)@.channels.update(
                channel_id as int,
                self@.channels[channel_id as int],
            ));
            if result is Err {
                assert(self@.channels =~= old(self)@.channels);
            }
        }
        match result {
            Ok(()) => Ok(()),
            Err(e) => Err(ConnectionError::ChannelError(e)),
        }
    }

    /// Hands out the oldest message received on channel `channel_id`, if that channel
    /// exists.
    pub fn receive(&mut self, channel_id: u8) -> (r: Option<Vec<u8>>)
        ensures
            channel_id >= old(self)@.channels.len() ==> r is None && final(self)@ == old(self)@,
            channel_id < old(self)@.channels.len() ==> {
                &&& final(self)@ == (ConnectionView {
                    channels: old(self)@.channels.update(
                        channel_id as int,
                        final(self)@.channels[channel_id as int],
                    ),
                    ..old(self)@
                })
                &&& final(self)@.channels[channel_id as int].handed_out_from(
                    &old(self)@.channels[channel_id as int],
                    match r {
                        Some(v) => Some(v@),
                        None => None,
                    },
                )
            },
    {
        if channel_id as usize >= self.channels.len() {
            return None;
        }
        self.channels[channel_id as usize].receive()
    }

    /// The header for the next packet: the protocol, this side's sequence number and its
    /// acknowledgements.
    fn create_header(&self) -> (r: PacketHeader)
        ensures
            r == header_of(self@),
    {
        PacketHeader {
            protocol_id: self.config.protocol_id,
            sequence: self.local_sequence,
            ack: self.remote_sequence,
            ack_bits: self.ack_bits,
        }
    }

    /// Queues a connection request.
    fn send_connection_request(&mut self)
        ensures
            final(self)@ == (ConnectionView {
                send_queue: old(self)@.send_queue.push(request_packet(old(self)@)),
                ..old(self)@
            }),
    {
        let header = PacketHeader {
            protocol_id: self.config.protocol_id,
            sequence: 0,
            ack: 0,
            ack_bits: 0,
        };
        let packet = Packet::new(header, PacketType::ConnectionRequest);
        let ghost m = packet@;
        self.send_queue.push_back(packet);
        proof {
            assert(m == request_packet(old(self)@));
            assert(self@.send_queue =~= old(self)@.send_queue.push(m));
        }
    }

    /// Queues a keep-alive.
    fn send_keepalive(&mut self)
        ensures
            final(self)@ == (ConnectionView {
                send_queue: old(self)@.send_queue.push(
                    (header_of(old(self)@), PacketType::KeepAlive, Seq::empty()),
                ),
                ..old(self)@
            }),
    {
        let header = self.create_header();
        let packet = Packet::new(header, PacketType::KeepAlive);
        let ghost m = packet@;
        self.send_queue.push_back(packet);
        proof {
            assert(self@.send_queue =~= old(self)@.send_queue.push(m));
        }
    }

    /// Takes the oldest packet off the send queue and encodes it. A packet that cannot
    /// be encoded is dropped with an error.
    pub fn next_outgoing(&mut self) -> (r: Result<Option<OutgoingDatagram>, ConnectionError>)
        ensures
            old(self)@.send_queue.len() == 0 ==> r is Ok && r->Ok_0 is None && final(self)@
                == old(self)@,
            old(self)@.send_queue.len() > 0 ==> {
                let p = old(self)@.send_queue[0];
                &&& final(self)@ == (ConnectionView {
                    send_queue: old(self)@.send_queue.drop_first(),
                    ..old(self)@
                })
                &&& packet_type_ok(p.1) ==> {
                    &&& r is Ok
                    &&& r->Ok_0 is Some
                    &&& r->Ok_0->0.packet@ == p
                    &&& is_packet_encoding(r->Ok_0->0.bytes@, p.0, p.1, p.2)
                }
                &&& !packet_type_ok(p.1) ==> r == Err::<Option<OutgoingDatagram>, ConnectionError>(
                    ConnectionError::InvalidPacket,
                )
            },
    {
        let popped = self.send_queue.pop_front();
        proof {
            if old(self)@.send_queue.len() > 0 {
                assert(self@.send_queue =~= old(self)@.send_queue.drop_first());
            }
        }
        match popped {
            None => Ok(None),
            Some(packet) => match packet.serialize() {
                Ok(bytes) => Ok(Some(OutgoingDatagram { packet, bytes })),
                Err(_) => Err(ConnectionError::InvalidPacket),
            },
        }
    }

    /// Counting `sent` would overflow the counters, or it names a channel that does not
    /// exist.
    pub open spec fn sent_panics(&self, sent: &OutgoingDatagram) -> bool {
        ||| self@.stats.packets_sent == u64::MAX
        ||| self@.stats.bytes_sent + sent.bytes@.len() > u64::MAX
        ||| sent.packet.packet_type is Payload && sent.packet.packet_type->channel
            >= self@.channels.len()
    }

    /// `sent` is a payload packet on a reliable channel, which waits for its
    /// acknowledgement once sent.
    pub open spec fn tracks_sent(&self, sent: &OutgoingDatagram) -> bool {
        &&& sent.packet.packet_type is Payload
        &&& self@.channels[sent.packet.packet_type->channel as int].spec_config().reliability
            == crate::config::Reliability::Reliable
    }

    /// The connection after `sent` went out at `now`, but for the reliability layer.
    pub open spec fn view_after_sent(&self, sent: &OutgoingDatagram, now: u64) -> ConnectionView {
        let o = self@;
        ConnectionView {
            last_send_time: now,
            stats: NetworkStats {
                packets_sent: (o.stats.packets_sent + 1) as u64,
                bytes_sent: (o.stats.bytes_sent + sent.bytes@.len()) as u64,
                ..o.stats
            },
            ..o
        }
    }

    /// Whether counting `sent` would overflow the counters, or it names a channel that
    /// does not exist.
    pub fn sent_would_panic(&self, sent: &OutgoingDatagram) -> (r: bool)
        ensures
            r == self.sent_panics(sent),
    {
        let bad_channel = match sent.packet.packet_type {
            PacketType::Payload { channel, .. } => channel as usize >= self.channels.len(),
            _ => false,
        };
        self.stats.packets_sent == u64::MAX || self.stats.bytes_sent > u64::MAX
            - sent.bytes.len() as u64 || bad_channel
    }

    /// Records that `sent` went out at `now`: the send time and the counters, and a
    /// payload packet on a reliable channel then waits for its acknowledgement.
    pub fn on_packet_sent(&mut self, sent: &OutgoingDatagram, now: u64)
        requires
            !old(self).sent_panics(sent),
        ensures
            final(self)@ == (ConnectionView {
                reliability: final(self)@.reliability,
                ..old(self).view_after_sent(sent, now)
            }),
            old(self).tracks_sent(sent) ==> {
                &&& final(self)@.reliability.spec_sent() == old(self)@.reliability.spec_sent().insert(
                    sent.packet.header.sequence,
                    crate::reliability::SentRecord { send_time: now, retry_count: 0, data: sent.bytes@ },
                )
                &&& final(self)@.reliability.same_but_sent(&old(self)@.reliability)
            },
            !old(self).tracks_sent(sent) ==> final(self)@.reliability == old(self)@.reliability,
    {
        self.last_packet_send_time = now;
        self.stats.packets_sent = self.stats.packets_sent + 1;
        self.stats.bytes_sent = self.stats.bytes_sent + sent.bytes.len() as u64;
        if let PacketType::Payload { channel, .. } = sent.packet.packet_type {
            if self.channels[channel as usize].is_reliable() {
                let copy = vstd::slice::slice_to_vec(sent.bytes.as_slice());
                self.reliability.on_packet_sent(sent.packet.header.sequence, now, copy);
            }
        }
    }

    /// Taking in `p` in the connected state would overflow a counter, or the shift of the
    /// acknowledgement bits, or finds no received sequence numbers remembered.
    pub open spec fn handle_panics(&self, p: PacketModel) -> bool {
        &&& self@.state == ConnectionState::Connected
        &&& !(p.1 is ConnectionDeny)
        &&& {
            ||| self@.reliability.spec_received().spec_size() == 0
            ||| self@.reliability.receive_overflows(p.0.sequence)
            ||| p.1 is Payload && p.1->channel < self@.channels.len()
                && self@.channels[p.1->channel as int].receive_overflows(p.2.len())
        }
    }

    /// Whether taking in `packet` would overflow a counter or the shift of the
    /// acknowledgement bits, or find no received sequence numbers remembered.
    pub fn handle_would_panic(&self, packet: &Packet) -> (r: bool)
        requires
            self.wf(),
        ensures
            r == self.handle_panics(packet@),
    {
        if self.state != ConnectionState::Connected {
            return false;
        }
        match packet.packet_type {
            PacketType::ConnectionDeny { .. } => false,
            PacketType::Payload { channel, .. } => {
                self.reliability.receive_would_panic(packet.header.sequence) || ((channel as usize)
                    < self.channels.len() && self.channels[channel as usize].receive_would_overflow(
                    packet.payload.len(),
                ))
            },
            _ => self.reliability.receive_would_panic(packet.header.sequence),
        }
    }

    /// The connection after the connected state took in `p` at `now`, before a
    /// disconnect packet resets it: the reliability layer records the sequence number and
    /// the acknowledgements, the newest remote sequence number advances, and a payload
    /// goes to its channel when that exists.
    pub open spec fn connected_after(&self, old: ConnectionView, p: PacketModel) -> bool {
        let v = self@;
        &&& v == ConnectionView {
            remote_sequence: if spec_sequence_greater_than(p.0.sequence, old.remote_sequence) {
                p.0.sequence
            } else {
                old.remote_sequence
            },
            reliability: v.reliability,
            channels: v.channels,
            ..old
        }
        &&& v.reliability.receive_side_after(&old.reliability, p.0.sequence)
        &&& v.reliability.spec_sent() == old.reliability.spec_sent().remove_keys(
            acked_by(p.0.ack, p.0.ack_bits),
        )
        &&& v.channels.len() == old.channels.len()
        &&& if p.1 is Payload && p.1->channel < old.channels.len() {
            let c = p.1->channel as int;
            &&& v.channels == old.channels.update(c, v.channels[c])
            &&& v.channels[c].received_from(&old.channels[c], p.2)
        } else {
            v.channels == old.channels
        }
    }

    /// Takes in a received packet at `now`, by the state it meets:
    /// a challenge while connecting is answered with this side's salt;
    /// the acceptance after the answer connects;
    /// a denial, in any state, disconnects and fails;
    /// in the connected state, any other packet updates the acknowledgements, a payload
    /// goes to its channel, and a disconnect packet resets the connection;
    /// anything else is ignored.
    pub fn handle_packet(&mut self, packet: Packet, now: u64) -> (r: Result<(), ConnectionError>)
        requires
            old(self).wf(),
            !old(self).handle_panics(packet@),
        ensures
            final(self).wf(),
            handle_outcome(*old(self), packet, now, *final(self), r),
    {
        match (self.state, packet.packet_type) {
            (ConnectionState::Connecting, PacketType::ConnectionChallenge { server_salt }) => {
                self.server_salt = server_salt;
                self.state = ConnectionState::ChallengeResponse;
                let header = self.create_header();
                let response = Packet::new(
                    header,
                    PacketType::ConnectionResponse { client_salt: self.client_salt },
                );
                let ghost m = response@;
                let ghost before = self@.send_queue;
                self.send_queue.push_back(response);
                proof {
                    assert(self@.send_queue =~= before.push(m));
                }
                Ok(())
            },
            (ConnectionState::ChallengeResponse, PacketType::ConnectionAccept) => {
                self.state = ConnectionState::Connected;
                self.connection_start_time = Some(now);
                self.last_packet_recv_time = now;
                self.local_sequence = 0;
                self.remote_sequence = 0;
                Ok(())
            },
            (_, PacketType::ConnectionDeny { reason }) => {
                self.state = ConnectionState::Disconnected;
                Err(ConnectionError::ConnectionDenied(reason))
            },
            (ConnectionState::Connected, _) => {
                self.reliability.on_packet_received(packet.header.sequence, now);
                if sequence_greater_than(packet.header.sequence, self.remote_sequence) {
                    self.remote_sequence = packet.header.sequence;
                }
                self.reliability.process_acks(packet.header.ack, packet.header.ack_bits);
                let ghost p = packet@;
                match packet.packet_type {
                    PacketType::Payload { channel, .. } => {
                        if (channel as usize) < self.channels.len() {
                            self.channels[channel as usize].on_packet_received(packet.payload);
                        }
                        proof {
                            assert(self.connected_after(old(self)@, p));
                        }
                    },
                    PacketType::Disconnect { reason: _ } => {
                        proof {
                            assert(self.connected_after(old(self)@, p));
                        }
                        let ghost mid = *self;
                        self.state = ConnectionState::Disconnected;
                        self.reset_connection();
                        proof {
                            assert(mid.connected_after(old(self)@, p));
                        }
                    },
                    _ => {
                        proof {
                            assert(self.connected_after(old(self)@, p));
                        }
                    },
                }
                Ok(())
            },
            _ => Ok(()),
        }
    }

    /// Taking in `data` would overflow a counter or the shift of the acknowledgement
    /// bits, or finds no received sequence numbers remembered.
    pub open spec fn datagram_panics(&self, data: Seq<u8>) -> bool {
        &&& spec_packet_read(data) matches Ok(p)
        &&& p.0.protocol_id == self@.config.protocol_id
        &&& {
            ||| self@.stats.packets_received == u64::MAX
            ||| self@.stats.bytes_received + data.len() > u64::MAX
            ||| self.handle_panics(p)
        }
    }

    /// Whether taking in `data` would overflow a counter or the shift of the
    /// acknowledgement bits, or find no received sequence numbers remembered.
    pub fn datagram_would_panic(&self, data: &[u8]) -> (r: bool)
        requires
            self.wf(),
            8 * data@.len() + 64 <= usize::MAX,
        ensures
            r == self.datagram_panics(data@),
    {
        match Packet::deserialize(data) {
            Ok(packet) => {
                packet.header.protocol_id == self.config.protocol_id && (
                self.stats.packets_received == u64::MAX || self.stats.bytes_received > u64::MAX
                    - data.len() as u64 || self.handle_would_panic(&packet))
            },
            Err(_) => false,
        }
    }

    /// The connection after counting a datagram of `len` bytes received at `now`.
    pub open spec fn view_after_received(&self, len: nat, now: u64) -> ConnectionView {
        let o = self@;
        ConnectionView {
            last_recv_time: now,
            stats: NetworkStats {
                packets_received: (o.stats.packets_received + 1) as u64,
                bytes_received: (o.stats.bytes_received + len) as u64,
                ..o.stats
            },
            ..o
        }
    }

    /// Takes in a datagram that arrived from the other side at `now`: it is decoded, its
    /// protocol checked, counted, and handled as `handle_packet` says.
    pub fn on_datagram(&mut self, data: &[u8], now: u64) -> (r: Result<(), ConnectionError>)
        requires
            old(self).wf(),
            8 * data@.len() + 64 <= usize::MAX,
            !old(self).datagram_panics(data@),
        ensures
            final(self).wf(),
            (match spec_packet_read(data@) {
                Err(_) => {
                    &&& r == Err::<(), ConnectionError>(ConnectionError::InvalidPacket)
                    &&& final(self)@ == old(self)@
                },
                Ok(p) => if p.0.protocol_id != old(self)@.config.protocol_id {
                    &&& r == Err::<(), ConnectionError>(ConnectionError::ProtocolMismatch)
                    &&& final(self)@ == old(self)@
                } else {
                    exists|mid: Connection, packet: Packet|
                        {
                            &&& packet@ == p
                            &&& mid@ == old(self).view_after_received(data@.len(), now)
                            &&& #[trigger] handle_outcome(mid, packet, now, *final(self), r)
                        }
                },
            }),
    {
        let packet = match Packet::deserialize(data) {
            Ok(p) => p,
            Err(_) => {
                return Err(ConnectionError::InvalidPacket);
            },
        };
        if packet.header.protocol_id != self.config.protocol_id {
            return Err(ConnectionError::ProtocolMismatch);
        }
        self.last_packet_recv_time = now;
        self.stats.packets_received = self.stats.packets_received + 1;
        self.stats.bytes_received = self.stats.bytes_received + data.len() as u64;
        let ghost mid = *self;
        let ghost pk = packet;
        let r = self.handle_packet(packet, now);
        proof {
            assert(handle_outcome(mid, pk, now, *self, r));
        }
        r
    }

    /// Empties the queues and restarts the handshake, the sequence numbers and every
    /// channel.
    fn reset_connection(&mut self)
        ensures
            is_reset_of(final(self)@, old(self)@),
            final(self)@.reliability == old(self)@.reliability,
    {
        self.state = ConnectionState::Disconnected;
        self.connection_start_time = None;
        self.connection_request_time = None;
        self.local_sequence = 0;
        self.remote_sequence = 0;
        self.ack_bits = 0;
        self.send_queue.clear();
        self.recv_queue.clear();
        let n = self.channels.len();
        let mut i: usize = 0;
        while i < n
            invariant
                i <= n,
                n == old(self)@.channels.len(),
                self.channels@.len() == n,
                forall|j: int| 0 <= j < i ==> #[trigger] self.channels@[j].is_reset_of(&old(self)@.channels[j]),
                forall|j: int| i <= j < n ==> #[trigger] self.channels@[j] == old(self)@.channels[j],
                self.state == ConnectionState::Disconnected,
                self.connection_start_time is None,
                self.connection_request_time is None,
                self.local_sequence == 0,
                self.remote_sequence == 0,
                self.ack_bits == 0,
                self.send_queue@.len() == 0,
                self.recv_queue@.len() == 0,
                self.config == old(self).config,
                self.client_salt == old(self).client_salt,
                self.server_salt == old(self).server_salt,
                self.last_packet_send_time == old(self).last_packet_send_time,
                self.last_packet_recv_time == old(self).last_packet_recv_time,
                self.connection_retry_count == old(self).connection_retry_count,
                self.reliability == old(self).reliability,
                self.stats == old(self).stats,
            decreases n - i,
        {
            self.channels[i].reset();
            i = i + 1;
        }
        proof {
            assert(self@.send_queue =~= Seq::<PacketModel>::empty());
            assert(self@.recv_queue =~= Seq::<PacketModel>::empty());
        }
    }

    /// Whether the handshake has completed.
    pub fn is_connected(&self) -> (r: bool)
        ensures
            r == (self@.state == ConnectionState::Connected),
    {
        self.state == ConnectionState::Connected
    }

    /// The connection's counters.
    pub fn stats(&self) -> (r: &NetworkStats)
        ensures
            *r == self@.stats,
    {
        &self.stats
    }
}

/// What `handle_packet` promises of taking `packet` in `before` at `now`, ending in
/// `after` with result `r`.
pub open spec fn handle_outcome(
    before: Connection,
    packet: Packet,
    now: u64,
    after: Connection,
    r: Result<(), ConnectionError>,
) -> bool {
    let o = before@;
    let n = after@;
    &&& o.state == ConnectionState::Connecting && packet.packet_type is ConnectionChallenge ==> {
        &&& r is Ok
        &&& n == ConnectionView {
            server_salt: packet.packet_type->server_salt,
            state: ConnectionState::ChallengeResponse,
            send_queue: o.send_queue.push(
                (
                    header_of(o),
                    PacketType::ConnectionResponse { client_salt: o.client_salt },
                    Seq::empty(),
                ),
            ),
            ..o
        }
    }
    &&& o.state == ConnectionState::ChallengeResponse && packet.packet_type is ConnectionAccept
        ==> {
        &&& r is Ok
        &&& n == ConnectionView {
            state: ConnectionState::Connected,
            start_time: Some(now),
            last_recv_time: now,
            local_sequence: 0,
            remote_sequence: 0,
            ..o
        }
    }
    &&& packet.packet_type is ConnectionDeny ==> {
        &&& r == Err::<(), ConnectionError>(
            ConnectionError::ConnectionDenied(packet.packet_type->ConnectionDeny_reason),
        )
        &&& n == ConnectionView { state: ConnectionState::Disconnected, ..o }
    }
    &&& o.state == ConnectionState::Connected && !(packet.packet_type is ConnectionDeny) ==> {
        &&& r is Ok
        &&& packet.packet_type is Disconnect ==> exists|mid: Connection|
            mid.connected_after(o, packet@) && is_reset_of(n, mid@)
        &&& !(packet.packet_type is Disconnect) ==> after.connected_after(o, packet@)
    }
    &&& !(o.state == ConnectionState::Connecting && packet.packet_type is ConnectionChallenge)
        && !(o.state == ConnectionState::ChallengeResponse && packet.packet_type
        is ConnectionAccept) && !(packet.packet_type is ConnectionDeny) && o.state
        != ConnectionState::Connected ==> r is Ok && n == o
}

/// Taking in a packet connects only as the last step of the handshake: the acceptance
/// arriving after the challenge was answered.
pub proof fn lemma_connected_only_after_acceptance(
    before: Connection,
    packet: Packet,
    now: u64,
    after: Connection,
    r: Result<(), ConnectionError>,
)
    requires
        handle_outcome(before, packet, now, after, r),
        before@.state != ConnectionState::Connected,
        after@.state == ConnectionState::Connected,
    ensures
        before@.state == ConnectionState::ChallengeResponse,
        packet.packet_type is ConnectionAccept,
        r is Ok,
{
}

/// Taking in a packet leaves the connected state only for a denial or a disconnect
/// packet, and both end disconnected.
pub proof fn lemma_leaves_connected_only_when_told(
    before: Connection,
    packet: Packet,
    now: u64,
    after: Connection,
    r: Result<(), ConnectionError>,
)
    requires
        handle_outcome(before, packet, now, after, r),
        before@.state == ConnectionState::Connected,
        after@.state != ConnectionState::Connected,
    ensures
        packet.packet_type is ConnectionDeny || packet.packet_type is Disconnect,
        after@.state == ConnectionState::Disconnected,
{
    if !(packet.packet_type is ConnectionDeny) && !(packet.packet_type is Disconnect) {
        assert(after.connected_after(before@, packet@));
    }
}

/// Calls `rand::random::<u64>()`, which draws from the thread's random generator; nothing
/// is promised of the number.
#[verifier::external_body]
fn random_salt() -> u64 {
    rand::random::<u64>()
}

/// A connection that is not disconnected times out exactly when more than the connection
/// timeout has passed since it last received a packet. When it last sent one plays no
/// part: sending keep-alives does not keep a connection to a silent peer alive.
pub proof fn lemma_timeout_counts_from_last_receive(v: ConnectionView, now: u64, sent_at: u64)
    ensures
        timed_out(v, now) <==> (v.state != ConnectionState::Disconnected && now - v.last_recv_time
            > v.config.connection_timeout),
        timed_out(ConnectionView { last_send_time: sent_at, ..v }, now) == timed_out(v, now),
{
}

/// Recording a sent packet never puts off a timeout: a connection that times out at `now`
/// still does after any packet went out, whenever that was.
pub proof fn lemma_sending_does_not_postpone_timeout(
    c: Connection,
    sent: OutgoingDatagram,
    sent_at: u64,
    now: u64,
)
    requires
        c@.state != ConnectionState::Disconnected,
        now - c@.last_recv_time > c@.config.connection_timeout,
    ensures
        timed_out(c@, now),
        timed_out(c.view_after_sent(&sent, sent_at), now),
{
}

} // verus!
