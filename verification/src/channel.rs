//! Message channels: a queue of messages to send and a queue of received messages to
//! hand out, in the order they came.
use vstd::prelude::*;
use std::collections::{HashMap, VecDeque};
pub use crate::config::{ChannelConfig, DeliveryOrder, Reliability};

verus! {

broadcast use vstd::std_specs::hash::group_hash_axioms;

/// Why a channel refused a message.
#[derive(Debug, Clone, Copy, PartialEq, Eq, Structural)]
pub enum ChannelError {
    /// The send queue is full and the channel refuses rather than drops.
    BufferFull,
    /// The message is longer than the channel allows.
    MessageTooLarge,
    InvalidSequence,
}

/// A message waiting in the send queue.
#[derive(Debug)]
struct ChannelMessage {
    sequence: u16,
    data: Vec<u8>,
    reliable: bool,
    retry_count: u32,
}

/// What the contracts know of a queued message.
pub struct QueuedMessage {
    pub sequence: u16,
    pub data: Seq<u8>,
    pub reliable: bool,
    pub retry_count: u32,
}

impl ChannelMessage {
    spec fn model(&self) -> QueuedMessage {
        QueuedMessage {
            sequence: self.sequence,
            data: self.data@,
            reliable: self.reliable,
            retry_count: self.retry_count,
        }
    }
}

/// The queue after `update`: on a reliable channel each reliable message that has been
/// retried fewer than 5 times counts one more retry.
pub open spec fn queue_after_update(queue: Seq<QueuedMessage>, reliable_channel: bool) -> Seq<
    QueuedMessage,
> {
    Seq::new(
        queue.len(),
        |i: int|
            if reliable_channel && queue[i].reliable && queue[i].retry_count < 5 {
                QueuedMessage { retry_count: (queue[i].retry_count + 1) as u32, ..queue[i] }
            } else {
                queue[i]
            },
    )
}

/// One channel of a connection.
#[derive(Debug)]
pub struct Channel {
    id: u8,
    config: ChannelConfig,
    send_sequence: u16,
    send_buffer: VecDeque<ChannelMessage>,
    receive_sequence: u16,
    receive_buffer: HashMap<u16, ChannelMessage>,
    ordered_buffer: VecDeque<Vec<u8>>,
    messages_sent: u64,
    messages_received: u64,
    bytes_sent: u64,
    bytes_received: u64,
}

/// Counters and queue lengths of a channel.
#[derive(Debug, Clone)]
pub struct ChannelStats {
    pub id: u8,
    pub messages_sent: u64,
    pub messages_received: u64,
    pub bytes_sent: u64,
    pub bytes_received: u64,
    pub send_buffer_size: usize,
    pub receive_buffer_size: usize,
}

impl Channel {
    pub closed spec fn spec_id(&self) -> u8 {
        self.id
    }

    pub closed spec fn spec_config(&self) -> ChannelConfig {
        self.config
    }

    /// The sequence number the next message is sent with.
    pub closed spec fn spec_send_sequence(&self) -> u16 {
        self.send_sequence
    }

    pub closed spec fn spec_receive_sequence(&self) -> u16 {
        self.receive_sequence
    }

    /// The messages waiting to be sent, oldest first.
    pub closed spec fn spec_send_queue(&self) -> Seq<QueuedMessage> {
        self.send_buffer@.map_values(|m: ChannelMessage| m.model())
    }

    /// The received messages not yet handed out, oldest first.
    pub closed spec fn spec_delivered(&self) -> Seq<Seq<u8>> {
        self.ordered_buffer@.map_values(|v: Vec<u8>| v@)
    }

    /// How many messages wait for reordering.
    pub closed spec fn spec_pending_count(&self) -> nat {
        self.receive_buffer@.dom().len()
    }

    pub closed spec fn spec_messages_sent(&self) -> u64 {
        self.messages_sent
    }

    pub closed spec fn spec_messages_received(&self) -> u64 {
        self.messages_received
    }

    pub closed spec fn spec_bytes_sent(&self) -> u64 {
        self.bytes_sent
    }

    pub closed spec fn spec_bytes_received(&self) -> u64 {
        self.bytes_received
    }

    /// Everything but the send queue and its sequence number is as in `other`.
    pub open spec fn same_receive_side(&self, other: &Channel) -> bool {
        &&& self.spec_id() == other.spec_id()
        &&& self.spec_config() == other.spec_config()
        &&& self.spec_receive_sequence() == other.spec_receive_sequence()
        &&& self.spec_delivered() == other.spec_delivered()
        &&& self.spec_pending_count() == other.spec_pending_count()
        &&& self.spec_messages_received() == other.spec_messages_received()
        &&& self.spec_bytes_received() == other.spec_bytes_received()
    }

    /// Everything but the delivery queue and the receive counters is as in `other`.
    pub open spec fn same_send_side(&self, other: &Channel) -> bool {
        &&& self.spec_id() == other.spec_id()
        &&& self.spec_config() == other.spec_config()
        &&& self.spec_send_sequence() == other.spec_send_sequence()
        &&& self.spec_receive_sequence() == other.spec_receive_sequence()
        &&& self.spec_send_queue() == other.spec_send_queue()
        &&& self.spec_pending_count() == other.spec_pending_count()
        &&& self.spec_messages_sent() == other.spec_messages_sent()
        &&& self.spec_bytes_sent() == other.spec_bytes_sent()
    }

    /// Channel `id` with `config`, empty queues and zero counters.
    pub open spec fn is_fresh(&self, id: u8, config: ChannelConfig) -> bool {
        &&& self.spec_id() == id
        &&& self.spec_config() == config
        &&& self.spec_send_sequence() == 0
        &&& self.spec_receive_sequence() == 0
        &&& self.spec_send_queue() == Seq::<QueuedMessage>::empty()
        &&& self.spec_delivered() == Seq::<Seq<u8>>::empty()
        &&& self.spec_pending_count() == 0
        &&& self.spec_messages_sent() == 0
        &&& self.spec_messages_received() == 0
        &&& self.spec_bytes_sent() == 0
        &&& self.spec_bytes_received() == 0
    }

    /// A channel with empty queues and zero counters.
    pub fn new(id: u8, config: ChannelConfig) -> (r: Self)
        ensures
            r.is_fresh(id, config),
    {
        let r = Self {
            id,
            config,
            send_sequence: 0,
            send_buffer: VecDeque::new(),
            receive_sequence: 0,
            receive_buffer: HashMap::new(),
            ordered_buffer: VecDeque::new(),
            messages_sent: 0,
            messages_received: 0,
            bytes_sent: 0,
            bytes_received: 0,
        };
        proof {
            assert(r.spec_send_queue() =~= Seq::<QueuedMessage>::empty());
            assert(r.spec_delivered() =~= Seq::<Seq<u8>>::empty());
            assert(r.receive_buffer@.dom() =~= Set::<u16>::empty());
        }
        r
    }

    /// `send` of a message of `len` bytes is refused as too large.
    pub open spec fn send_too_large(&self, len: nat) -> bool {
        len > self.spec_config().max_message_size
    }

    /// `send` is refused because the queue is full and the channel does not drop.
    pub open spec fn send_blocked(&self, len: nat) -> bool {
        &&& !self.send_too_large(len)
        &&& self.spec_send_queue().len() >= self.spec_config().message_buffer_size
        &&& self.spec_config().block_on_full
    }

    /// `send` of `len` bytes would be accepted.
    pub open spec fn send_accepted(&self, len: nat) -> bool {
        !self.send_too_large(len) && !self.send_blocked(len)
    }

    /// Accepting a message of `len` bytes would overflow the send counters.
    pub open spec fn send_overflows(&self, len: nat) -> bool {
        &&& self.send_accepted(len)
        &&& (self.spec_messages_sent() == u64::MAX || self.spec_bytes_sent() + len > u64::MAX)
    }

    /// The send queue after accepting `data`: the oldest message is dropped when the queue
    /// is full, and the new one goes last with the next sequence number.
    pub open spec fn queue_after_send(&self, data: Seq<u8>, reliable: bool) -> Seq<QueuedMessage> {
        let q = self.spec_send_queue();
        let kept = if q.len() >= self.spec_config().message_buffer_size && q.len() > 0 {
            q.drop_first()
        } else {
            q
        };
        kept.push(
            QueuedMessage { sequence: self.spec_send_sequence(), data, reliable, retry_count: 0 },
        )
    }

    /// The channel after `old` accepted `data` to send.
    pub open spec fn accepted_from(&self, old: &Channel, data: Seq<u8>, reliable: bool) -> bool {
        &&& self.spec_send_queue() == old.queue_after_send(data, reliable)
        &&& self.spec_send_sequence() == (old.spec_send_sequence() + 1) % 65536
        &&& self.spec_messages_sent() == old.spec_messages_sent() + 1
        &&& self.spec_bytes_sent() == old.spec_bytes_sent() + data.len()
        &&& self.same_receive_side(old)
    }

    /// Whether accepting a message of `len` bytes would overflow the send counters.
    pub fn send_would_overflow(&self, len: usize) -> (r: bool)
        ensures
            r == self.send_overflows(len as nat),
    {
        let accepted = len <= self.config.max_message_size && !(self.send_buffer.len()
            >= self.config.message_buffer_size && self.config.block_on_full);
        accepted && (self.messages_sent == u64::MAX || self.bytes_sent > u64::MAX - len as u64)
    }

    /// Queues `data` to be sent. Refuses a message longer than the maximum size; when the
    /// queue is full, refuses it on a blocking channel and drops the oldest message
    /// otherwise.
    pub fn send(&mut self, data: &[u8], reliable: bool) -> (r: Result<(), ChannelError>)
        requires
            !old(self).send_overflows(data@.len()),
        ensures
            old(self).send_too_large(data@.len()) ==> r == Err::<(), ChannelError>(
                ChannelError::MessageTooLarge,
            ),
            old(self).send_blocked(data@.len()) ==> r == Err::<(), ChannelError>(
                ChannelError::BufferFull,
            ),
            r is Err ==> *final(self) == *old(self),
            old(self).send_accepted(data@.len()) ==> r is Ok && final(self).accepted_from(
                old(self),
                data@,
                reliable,
            ),
    {
        if data.len() > self.config.max_message_size {
            return Err(ChannelError::MessageTooLarge);
        }
        let ghost q0 = self.spec_send_queue();
        if self.send_buffer.len() >= self.config.message_buffer_size {
            if self.config.block_on_full {
                return Err(ChannelError::BufferFull);
            } else {
                self.send_buffer.pop_front();
            }
        }
        proof {
            if q0.len() >= self.config.message_buffer_size && q0.len() > 0 {
                assert(self.spec_send_queue() =~= q0.drop_first());
            } else {
                assert(self.spec_send_queue() =~= q0);
            }
        }
        let ghost kept = self.spec_send_queue();
        let message = ChannelMessage {
            sequence: self.send_sequence,
            data: vstd::slice::slice_to_vec(data),
            reliable,
            retry_count: 0,
        };
        self.send_sequence = self.send_sequence.wrapping_add(1);
        self.send_buffer.push_back(message);
        self.messages_sent = self.messages_sent + 1;
        self.bytes_sent = self.bytes_sent + data.len() as u64;
        proof {
            assert(self.spec_send_queue() =~= kept.push(
                QueuedMessage {
                    sequence: old(self).spec_send_sequence(),
                    data: data@,
                    reliable,
                    retry_count: 0,
                },
            ));
        }
        Ok(())
    }

    /// The data of the oldest message waiting to be sent, which stays queued.
    pub fn get_outgoing_message(&mut self) -> (r: Option<Vec<u8>>)
        ensures
            *final(self) == *old(self),
            old(self).spec_send_queue().len() == 0 ==> r is None,
            old(self).spec_send_queue().len() > 0 ==> r is Some && r->0@ == old(
                self,
            ).spec_send_queue()[0].data,
    {
        if self.send_buffer.len() > 0 {
            let copy = self.send_buffer[0].data.clone();
            proof {
                assert(copy@ =~= self.send_buffer@[0].data@);
            }
            Some(copy)
        } else {
            None
        }
    }

    /// Receiving a message of `len` bytes would overflow the receive counters.
    pub open spec fn receive_overflows(&self, len: nat) -> bool {
        self.spec_messages_received() == u64::MAX || self.spec_bytes_received() + len > u64::MAX
    }

    /// Whether taking in a message of `len` bytes would overflow the receive counters.
    pub fn receive_would_overflow(&self, len: usize) -> (r: bool)
        ensures
            r == self.receive_overflows(len as nat),
    {
        self.messages_received == u64::MAX || self.bytes_received > u64::MAX - len as u64
    }

    /// The channel after `old` took in the received message `data`.
    pub open spec fn received_from(&self, old: &Channel, data: Seq<u8>) -> bool {
        &&& self.spec_delivered() == old.spec_delivered().push(data)
        &&& self.spec_messages_received() == old.spec_messages_received() + 1
        &&& self.spec_bytes_received() == old.spec_bytes_received() + data.len()
        &&& self.same_send_side(old)
    }

    /// Takes in a received message: it goes last in the queue of messages to hand out,
    /// whatever the channel's ordering.
    pub fn on_packet_received(&mut self, data: Vec<u8>)
        requires
            !old(self).receive_overflows(data@.len()),
        ensures
            final(self).received_from(old(self), data@),
    {
        let ghost d = data@;
        let len = data.len() as u64;
        match self.config.ordering {
            DeliveryOrder::Unordered => {
                self.ordered_buffer.push_back(data);
                self.messages_received = self.messages_received + 1;
                self.bytes_received = self.bytes_received + len;
            },
            DeliveryOrder::Ordered => {
                self.ordered_buffer.push_back(data);
                self.messages_received = self.messages_received + 1;
                self.bytes_received = self.bytes_received + len;
            },
            DeliveryOrder::Sequenced => {
                self.ordered_buffer.push_back(data);
                self.messages_received = self.messages_received + 1;
                self.bytes_received = self.bytes_received + len;
            },
        }
        proof {
            assert(self.spec_delivered() =~= old(self).spec_delivered().push(d));
        }
    }

    /// The channel after `old` handed out `r`: the oldest received message, if any.
    pub open spec fn handed_out_from(&self, old: &Channel, r: Option<Seq<u8>>) -> bool {
        &&& old.spec_delivered().len() == 0 ==> r is None && self.spec_delivered()
            == old.spec_delivered()
        &&& old.spec_delivered().len() > 0 ==> {
            &&& r == Some(old.spec_delivered()[0])
            &&& self.spec_delivered() == old.spec_delivered().drop_first()
        }
        &&& self.same_send_side(old)
        &&& self.spec_messages_received() == old.spec_messages_received()
        &&& self.spec_bytes_received() == old.spec_bytes_received()
    }

    /// Hands out the oldest received message.
    pub fn receive(&mut self) -> (r: Option<Vec<u8>>)
        ensures
            final(self).handed_out_from(
                old(self),
                match r {
                    Some(v) => Some(v@),
                    None => None,
                },
            ),
    {
        let r = self.ordered_buffer.pop_front();
        proof {
            if old(self).spec_delivered().len() > 0 {
                assert(self.spec_delivered() =~= old(self).spec_delivered().drop_first());
            }
        }
        r
    }

    /// Takes the oldest queued message off the queue when it has sequence number
    /// `sequence`.
    pub fn acknowledge_message(&mut self, sequence: u16)
        ensures
            old(self).spec_send_queue().len() > 0 && old(self).spec_send_queue()[0].sequence
                == sequence ==> final(self).spec_send_queue() == old(
                self,
            ).spec_send_queue().drop_first(),
            !(old(self).spec_send_queue().len() > 0 && old(self).spec_send_queue()[0].sequence
                == sequence) ==> final(self).spec_send_queue() == old(self).spec_send_queue(),
            final(self).spec_send_sequence() == old(self).spec_send_sequence(),
            final(self).spec_messages_sent() == old(self).spec_messages_sent(),
            final(self).spec_bytes_sent() == old(self).spec_bytes_sent(),
            final(self).same_receive_side(old(self)),
    {
        if self.send_buffer.len() > 0 {
            if self.send_buffer[0].sequence == sequence {
                self.send_buffer.pop_front();
                proof {
                    assert(self.spec_send_queue() =~= old(self).spec_send_queue().drop_first());
                }
            }
        }
    }

    /// On a reliable channel, counts a retry for each reliable queued message retried
    /// fewer than 5 times.
    pub fn update(&mut self)
        ensures
            final(self).spec_send_queue() == queue_after_update(
                old(self).spec_send_queue(),
                old(self).spec_config().reliability == Reliability::Reliable,
            ),
            final(self).spec_send_sequence() == old(self).spec_send_sequence(),
            final(self).spec_messages_sent() == old(self).spec_messages_sent(),
            final(self).spec_bytes_sent() == old(self).spec_bytes_sent(),
            final(self).same_receive_side(old(self)),
    {
        let ghost q0 = self.spec_send_queue();
        if self.config.reliability == Reliability::Reliable {
            let n = self.send_buffer.len();
            let mut i: usize = 0;
            while i < n
                invariant
                    i <= n,
                    n == q0.len(),
                    self.config.reliability == Reliability::Reliable,
                    self.same_receive_side(old(self)),
                    self.send_sequence == old(self).send_sequence,
                    self.messages_sent == old(self).messages_sent,
                    self.bytes_sent == old(self).bytes_sent,
                    q0 == old(self).spec_send_queue(),
                    self.spec_send_queue() == q0.subrange(i as int, n as int) + queue_after_update(
                        q0,
                        true,
                    ).subrange(0, i as int),
                decreases n - i,
            {
                let ghost before = self.spec_send_queue();
                let ghost upd = queue_after_update(q0, true);
                proof {
                    assert(before[0] == q0[i as int]);
                }
                let popped = self.send_buffer.pop_front();
                match popped {
                    Some(mut message) => {
                        proof {
                            assert(message.model() == q0[i as int]);
                        }
                        if message.reliable && message.retry_count < 5 {
                            message.retry_count = message.retry_count + 1;
                        }
                        proof {
                            assert(message.model() == upd[i as int]);
                            assert(self.spec_send_queue() =~= before.drop_first());
                        }
                        let ghost mid = self.spec_send_queue();
                        let ghost last = message.model();
                        self.send_buffer.push_back(message);
                        proof {
                            assert(self.spec_send_queue() =~= mid.push(last));
                        }
                    },
                    None => {},
                }
                proof {
                    assert(before.len() == n);
                    assert(self.spec_send_queue() =~= q0.subrange(i + 1, n as int)
                        + queue_after_update(q0, true).subrange(0, i + 1));
                }
                i = i + 1;
            }
            proof {
                assert(self.spec_send_queue() =~= queue_after_update(q0, true));
            }
        } else {
            proof {
                assert(self.spec_send_queue() =~= queue_after_update(q0, false));
            }
        }
    }

    /// `old` with its queues emptied and both sequence numbers restarted; the counters
    /// stay.
    pub open spec fn is_reset_of(&self, old: &Channel) -> bool {
        &&& self.spec_id() == old.spec_id()
        &&& self.spec_config() == old.spec_config()
        &&& self.spec_send_sequence() == 0
        &&& self.spec_receive_sequence() == 0
        &&& self.spec_send_queue() == Seq::<QueuedMessage>::empty()
        &&& self.spec_delivered() == Seq::<Seq<u8>>::empty()
        &&& self.spec_pending_count() == 0
        &&& self.spec_messages_sent() == old.spec_messages_sent()
        &&& self.spec_messages_received() == old.spec_messages_received()
        &&& self.spec_bytes_sent() == old.spec_bytes_sent()
        &&& self.spec_bytes_received() == old.spec_bytes_received()
    }

    /// Empties the queues and restarts both sequence numbers; the counters stay.
    pub fn reset(&mut self)
        ensures
            final(self).is_reset_of(old(self)),
    {
        self.send_sequence = 0;
        self.receive_sequence = 0;
        self.send_buffer.clear();
        self.receive_buffer.clear();
        self.ordered_buffer.clear();
        proof {
            assert(self.spec_send_queue() =~= Seq::<QueuedMessage>::empty());
            assert(self.spec_delivered() =~= Seq::<Seq<u8>>::empty());
            assert(self.receive_buffer@.dom() =~= Set::<u16>::empty());
        }
    }

    /// Whether the channel delivers reliably.
    pub fn is_reliable(&self) -> (r: bool)
        ensures
            r == (self.spec_config().reliability == Reliability::Reliable),
    {
        self.config.reliability == Reliability::Reliable
    }

    /// The channel's counters and queue lengths.
    pub fn stats(&self) -> (r: ChannelStats)
        ensures
            r.id == self.spec_id(),
            r.messages_sent == self.spec_messages_sent(),
            r.messages_received == self.spec_messages_received(),
            r.bytes_sent == self.spec_bytes_sent(),
            r.bytes_received == self.spec_bytes_received(),
            r.send_buffer_size == self.spec_send_queue().len(),
            r.receive_buffer_size == self.spec_pending_count(),
    {
        ChannelStats {
            id: self.id,
            messages_sent: self.messages_sent,
            messages_received: self.messages_received,
            bytes_sent: self.bytes_sent,
            bytes_received: self.bytes_received,
            send_buffer_size: self.send_buffer.len(),
            receive_buffer_size: self.receive_buffer.len(),
        }
    }
}

/// How many messages a channel's send queue can hold: its buffer size, but at least one.
pub open spec fn queue_capacity(config: ChannelConfig) -> nat {
    if config.message_buffer_size > 0 {
        config.message_buffer_size as nat
    } else {
        1
    }
}

/// Received messages are handed out in the order they came: after taking in `data`,
/// the next message handed out is the oldest one waiting, or `data` when none was.
pub proof fn lemma_delivers_in_order(c0: Channel, c1: Channel, c2: Channel, data: Seq<u8>, r: Option<Seq<u8>>)
    requires
        c1.received_from(&c0, data),
        c2.handed_out_from(&c1, r),
    ensures
        c0.spec_delivered().len() == 0 ==> r == Some(data) && c2.spec_delivered().len() == 0,
        c0.spec_delivered().len() > 0 ==> r == Some(c0.spec_delivered()[0])
            && c2.spec_delivered() == c0.spec_delivered().drop_first().push(data),
{
    if c0.spec_delivered().len() > 0 {
        assert(c2.spec_delivered() =~= c0.spec_delivered().drop_first().push(data));
    }
}

/// Accepting a message never grows the send queue beyond the channel's capacity.
pub proof fn lemma_send_queue_bounded(c0: Channel, c1: Channel, data: Seq<u8>, reliable: bool)
    requires
        c0.spec_send_queue().len() <= queue_capacity(c0.spec_config()),
        c1.accepted_from(&c0, data, reliable),
    ensures
        c1.spec_send_queue().len() <= queue_capacity(c1.spec_config()),
        c1.spec_send_queue().last().sequence == c0.spec_send_sequence(),
        c1.spec_send_queue().last().data == data,
{
}

} // verus!
