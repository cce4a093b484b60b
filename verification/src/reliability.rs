//! Acknowledgement tracking and retransmission for reliable delivery.
use vstd::prelude::*;
use std::collections::HashMap;
use crate::packet::{
    is_wrapped_difference, sequence_diff, sequence_greater_than, spec_sequence_diff,
    spec_sequence_greater_than,
};

verus! {

broadcast use vstd::std_specs::hash::group_hash_axioms;

/// A ring of slots indexed by sequence number modulo the ring size.
#[derive(Debug)]
pub struct SequenceBuffer<T> {
    entries: Vec<Option<T>>,
    sequence: u16,
    size: usize,
}

/// The slot that a sequence number maps to.
pub open spec fn slot_of(sequence: u16, size: nat) -> int {
    (sequence as int) % (size as int)
}

/// Slot `i` is one of those that advancing from `from` by `steps` sequence numbers passes.
pub open spec fn passed_slot(from: u16, steps: int, size: nat, i: int) -> bool {
    exists|k: int| 1 <= k <= steps && #[trigger] slot_of(((from + k) % 65536) as u16, size) == i
}

/// The slots after storing `data` at `sequence` in a ring of `size` slots positioned at
/// `cur`: when `sequence` is ahead, the slots that advancing passes are emptied first, all
/// of them when it advances by `size` or more.
pub open spec fn slots_after_insert<T>(
    entries: Seq<Option<T>>,
    cur: u16,
    size: nat,
    sequence: u16,
    data: T,
) -> Seq<Option<T>> {
    let ahead = spec_sequence_greater_than(sequence, cur);
    let steps = (sequence - cur) % 65536;
    Seq::new(
        size,
        |i: int|
            if i == slot_of(sequence, size) {
                Some(data)
            } else if ahead && steps >= size {
                None
            } else if ahead && passed_slot(cur, steps, size, i) {
                None
            } else {
                entries[i]
            },
    )
}

/// The ring position after storing at `sequence`: it advances to `sequence` when that is
/// ahead.
pub open spec fn position_after_insert(cur: u16, sequence: u16) -> u16 {
    if spec_sequence_greater_than(sequence, cur) {
        sequence
    } else {
        cur
    }
}

/// A value stored in a ring is found again at its sequence number: after storing `data`
/// at `sequence`, the slot of `sequence` holds it.
pub proof fn lemma_insert_then_get<T>(
    entries: Seq<Option<T>>,
    cur: u16,
    size: nat,
    sequence: u16,
    data: T,
)
    requires
        size > 0,
    ensures
        slots_after_insert(entries, cur, size, sequence, data)[slot_of(sequence, size)] == Some(
            data,
        ),
        slots_after_insert(entries, cur, size, sequence, data).len() == size,
{
    assert(0 <= slot_of(sequence, size) < size);
}

/// Storing at a sequence number ahead of the ring empties the slot of every number that
/// the ring passes on the way, `cur + 1` up to the new number, before it stores the new
/// value: no number that was never stored is reported after the insert through an old
/// slot.
pub proof fn lemma_insert_ahead_clears_passed<T>(
    entries: Seq<Option<T>>,
    cur: u16,
    size: nat,
    sequence: u16,
    data: T,
    k: int,
)
    requires
        size > 0,
        entries.len() == size,
        spec_sequence_greater_than(sequence, cur),
        1 <= k <= (sequence - cur) % 65536,
        slot_of(((cur + k) % 65536) as u16, size) != slot_of(sequence, size),
    ensures
        slots_after_insert(entries, cur, size, sequence, data)[slot_of(
            ((cur + k) % 65536) as u16,
            size,
        )] is None,
{
    let i = slot_of(((cur + k) % 65536) as u16, size);
    assert(0 <= i < size);
    assert(passed_slot(cur, (sequence - cur) % 65536, size, i));
}

/// Storing at a sequence number at least the ring size ahead leaves every other slot
/// empty.
pub proof fn lemma_insert_far_ahead_clears_all<T>(
    entries: Seq<Option<T>>,
    cur: u16,
    size: nat,
    sequence: u16,
    data: T,
    i: int,
)
    requires
        size > 0,
        spec_sequence_greater_than(sequence, cur),
        (sequence - cur) % 65536 >= size,
        0 <= i < size,
        i != slot_of(sequence, size),
    ensures
        slots_after_insert(entries, cur, size, sequence, data)[i] is None,
{
}

/// Storing at a sequence number that is not ahead of the ring leaves every other slot as
/// it was.
pub proof fn lemma_insert_behind_keeps_others<T>(
    entries: Seq<Option<T>>,
    cur: u16,
    size: nat,
    sequence: u16,
    data: T,
    other: int,
)
    requires
        size > 0,
        entries.len() == size,
        !spec_sequence_greater_than(sequence, cur),
        0 <= other < size,
        other != slot_of(sequence, size),
    ensures
        slots_after_insert(entries, cur, size, sequence, data)[other] == entries[other],
{
}

impl<T> SequenceBuffer<T> {
    /// The slots.
    pub closed spec fn spec_entries(&self) -> Seq<Option<T>> {
        self.entries@
    }

    /// The newest sequence number the ring has advanced to.
    pub closed spec fn spec_sequence(&self) -> u16 {
        self.sequence
    }

    /// The number of slots.
    pub closed spec fn spec_size(&self) -> nat {
        self.size as nat
    }

    /// There is one slot per position of the ring.
    pub open spec fn wf(&self) -> bool {
        self.spec_entries().len() == self.spec_size()
    }

    /// What the slot of `sequence` holds.
    pub open spec fn spec_get(&self, sequence: u16) -> Option<T> {
        self.spec_entries()[slot_of(sequence, self.spec_size())]
    }

    /// A ring of `size` empty slots, positioned at sequence number 0.
    pub fn new(size: usize) -> (r: Self)
        ensures
            r.wf(),
            r.spec_size() == size,
            r.spec_sequence() == 0,
            forall|i: int| 0 <= i < size ==> r.spec_entries()[i] is None,
    {
        let mut entries = Vec::with_capacity(size);
        let mut i: usize = 0;
        while i < size
            invariant
                i <= size,
                entries@.len() == i,
                forall|j: int| 0 <= j < i ==> entries@[j] is None,
            decreases size - i,
        {
            entries.push(None);
            i = i + 1;
        }
        Self { entries, sequence: 0, size }
    }

    /// Stores `data` in the slot of `sequence`. When `sequence` is ahead of the ring, the
    /// ring first advances to it, emptying each slot that it passes, or every slot when
    /// it advances by the ring size or more.
    pub fn insert(&mut self, sequence: u16, data: T)
        requires
            old(self).wf(),
            old(self).spec_size() > 0,
        ensures
            final(self).wf(),
            final(self).spec_size() == old(self).spec_size(),
            final(self).spec_sequence() == position_after_insert(old(self).spec_sequence(), sequence),
            final(self).spec_entries() == slots_after_insert(
                old(self).spec_entries(),
                old(self).spec_sequence(),
                old(self).spec_size(),
                sequence,
                data,
            ),
    {
        let ghost cur = self.sequence;
        let ghost old_entries = self.entries@;
        let ghost steps = (sequence - cur) % 65536;
        if sequence_greater_than(sequence, self.sequence) {
            let diff = sequence_diff(sequence, self.sequence) as usize;
            proof {
                assert(diff as int == steps);
            }
            if diff < self.size {
                let mut n: usize = 0;
                while n < diff
                    invariant
                        n <= diff,
                        self.size == old(self).size,
                        diff < self.size,
                        diff == steps,
                        self.size > 0,
                        self.entries@.len() == self.size,
                        self.sequence == ((cur + n) % 65536) as u16,
                        forall|i: int|
                            0 <= i < self.size ==> #[trigger] self.entries@[i] == if passed_slot(
                                cur,
                                n as int,
                                self.size as nat,
                                i,
                            ) {
                                None
                            } else {
                                old_entries[i]
                            },
                    decreases diff - n,
                {
                    self.sequence = self.sequence.wrapping_add(1);
                    let index = self.sequence as usize % self.size;
                    self.entries.set(index, None);
                    proof {
                        assert(self.sequence == ((cur + n + 1) % 65536) as u16);
                        assert forall|i: int| 0 <= i < self.size implies #[trigger] self.entries@[i]
                            == if passed_slot(cur, n + 1, self.size as nat, i) {
                            None
                        } else {
                            old_entries[i]
                        } by {
                            if i == index {
                                assert(slot_of(((cur + (n + 1)) % 65536) as u16, self.size as nat)
                                    == i);
                            } else if passed_slot(cur, n + 1, self.size as nat, i) {
                                let k = choose|k: int|
                                    1 <= k <= n + 1 && #[trigger] slot_of(
                                        ((cur + k) % 65536) as u16,
                                        self.size as nat,
                                    ) == i;
                                assert(k != n + 1);
                                assert(passed_slot(cur, n as int, self.size as nat, i));
                            }
                        }
                    }
                    n = n + 1;
                }
            } else {
                let mut j: usize = 0;
                while j < self.entries.len()
                    invariant
                        j <= self.entries@.len(),
                        self.size == old(self).size,
                        self.size > 0,
                        self.entries@.len() == self.size,
                        forall|i: int| 0 <= i < j ==> #[trigger] self.entries@[i] is None,
                    decreases self.entries@.len() - j,
                {
                    self.entries.set(j, None);
                    j = j + 1;
                }
                self.sequence = sequence;
            }
        }
        let index = sequence as usize % self.size;
        self.entries.set(index, Some(data));
        proof {
            assert(self.entries@ =~= slots_after_insert(
                old_entries,
                cur,
                self.size as nat,
                sequence,
                data,
            ));
        }
    }

    /// Whether the slot of `sequence` holds a value.
    pub fn contains(&self, sequence: u16) -> (r: bool)
        requires
            self.wf(),
            self.spec_size() > 0,
        ensures
            r == self.spec_get(sequence) is Some,
    {
        let index = sequence as usize % self.size;
        self.entries[index].is_some()
    }

    /// The value in the slot of `sequence`.
    pub fn get(&self, sequence: u16) -> (r: Option<&T>)
        requires
            self.wf(),
            self.spec_size() > 0,
        ensures
            r == match self.spec_get(sequence) {
                Some(v) => Some(&v),
                None => None::<&T>,
            },
    {
        let index = sequence as usize % self.size;
        self.entries[index].as_ref()
    }
}



// ---------------------------------------------------------------------------
// The reliable endpoint.
// ---------------------------------------------------------------------------

/// A sent packet that waits for its acknowledgement.
#[derive(Debug)]
struct SentPacketData {
    send_time: u64,
    retry_count: u32,
    data: Vec<u8>,
}

/// What the endpoint remembers of a sent packet.
pub struct SentRecord {
    /// When it was last sent, in milliseconds.
    pub send_time: u64,
    /// How often it has been sent again.
    pub retry_count: u32,
    /// Its bytes.
    pub data: Seq<u8>,
}

/// Statistics of a reliable endpoint.
#[derive(Debug, Clone)]
pub struct ReliabilityStats {
    pub packets_in_flight: usize,
    pub local_sequence: u16,
    pub remote_sequence: u16,
}

/// Tracks sent packets until they are acknowledged, and received packets for the
/// acknowledgements sent back. Times are in milliseconds.
#[derive(Debug)]
pub struct ReliableEndpoint {
    local_sequence: u16,
    remote_sequence: u16,
    ack_bits: u32,
    sent_packets: HashMap<u16, SentPacketData>,
    received_packets: SequenceBuffer<bool>,
    max_sequence_distance: u16,
    retry_timeout: u64,
    max_retries: u32,
}

/// Time passed from `since` to `now`, or zero when `now` is earlier.
pub open spec fn elapsed(now: u64, since: u64) -> int {
    if now >= since {
        now - since
    } else {
        0
    }
}

/// The sequence numbers that an acknowledgement of `ack` with `ack_bits` covers: `ack`
/// itself, and `ack - (i + 1)` for each set bit `i`.
pub open spec fn acked_by(ack: u16, ack_bits: u32) -> Set<u16> {
    Set::new(
        |k: u16|
            k == ack || exists|i: int|
                0 <= i < 32 && (ack_bits >> (i as u32)) & 1u32 == 1u32 && #[trigger] (((ack - (i
                    + 1)) % 65536) as u16) == k,
    )
}

/// Taking one more item of a sequence adds that item.
proof fn lemma_take_one_more<A>(s: Seq<A>, i: int)
    requires
        0 <= i < s.len(),
    ensures
        forall|k: A| s.take(i + 1).contains(k) <==> (s.take(i).contains(k) || k == s[i]),
{
    assert forall|k: A| s.take(i + 1).contains(k) <==> (s.take(i).contains(k) || k == s[i]) by {
        if s.take(i + 1).contains(k) {
            let x = choose|x: int| 0 <= x < i + 1 && #[trigger] s.take(i + 1)[x] == k;
            if x < i {
                assert(s.take(i)[x] == k);
            }
        }
        if s.take(i).contains(k) {
            let x = choose|x: int| 0 <= x < i && #[trigger] s.take(i)[x] == k;
            assert(s.take(i + 1)[x] == k);
        }
        if k == s[i] {
            assert(s.take(i + 1)[i] == k);
        }
    }
}

impl ReliableEndpoint {
    /// The next sequence number to send with.
    pub closed spec fn spec_local_sequence(&self) -> u16 {
        self.local_sequence
    }

    /// The newest sequence number received.
    pub closed spec fn spec_remote_sequence(&self) -> u16 {
        self.remote_sequence
    }

    /// Which of the 32 sequence numbers before the newest were received.
    pub closed spec fn spec_ack_bits(&self) -> u32 {
        self.ack_bits
    }

    /// The packets that wait for an acknowledgement, by sequence number.
    pub closed spec fn spec_sent(&self) -> Map<u16, SentRecord> {
        Map::new(
            |k: u16| self.sent_packets@.contains_key(k),
            |k: u16|
                SentRecord {
                    send_time: self.sent_packets@[k].send_time,
                    retry_count: self.sent_packets@[k].retry_count,
                    data: self.sent_packets@[k].data@,
                },
        )
    }

    /// The record of received sequence numbers.
    pub closed spec fn spec_received(&self) -> SequenceBuffer<bool> {
        self.received_packets
    }

    /// Received sequence numbers further than this from the newest are ignored.
    pub closed spec fn spec_max_sequence_distance(&self) -> u16 {
        self.max_sequence_distance
    }

    /// How long a packet waits for its acknowledgement before it is sent again.
    pub closed spec fn spec_retry_timeout(&self) -> u64 {
        self.retry_timeout
    }

    /// How often a packet is sent again before it is given up.
    pub closed spec fn spec_max_retries(&self) -> u32 {
        self.max_retries
    }

    /// The record of received sequence numbers is well formed, and the settings are those
    /// that every endpoint keeps: received numbers up to 32768 from the newest are taken
    /// in, and a packet is sent again after 100 ms, at most 10 times.
    pub open spec fn wf(&self) -> bool {
        &&& self.spec_received().wf()
        &&& self.spec_max_sequence_distance() == 32768
        &&& self.spec_retry_timeout() == 100
        &&& self.spec_max_retries() == 10
    }

    /// Nothing sent or received, `buffer_size` received sequence numbers remembered,
    /// retrying after 100 ms at most 10 times.
    pub open spec fn is_fresh(&self, buffer_size: nat) -> bool {
        &&& self.wf()
        &&& self.spec_local_sequence() == 0
        &&& self.spec_remote_sequence() == 0
        &&& self.spec_ack_bits() == 0
        &&& self.spec_sent() == Map::<u16, SentRecord>::empty()
        &&& self.spec_received().spec_size() == buffer_size
        &&& self.spec_received().spec_sequence() == 0
        &&& forall|i: int|
            0 <= i < buffer_size ==> #[trigger] self.spec_received().spec_entries()[i] is None
        &&& self.spec_max_sequence_distance() == 32768
        &&& self.spec_retry_timeout() == 100
        &&& self.spec_max_retries() == 10
    }

    /// Everything but the packets waiting for acknowledgement is as in `old`.
    pub open spec fn same_but_sent(&self, old: &ReliableEndpoint) -> bool {
        &&& self.spec_local_sequence() == old.spec_local_sequence()
        &&& self.spec_remote_sequence() == old.spec_remote_sequence()
        &&& self.spec_ack_bits() == old.spec_ack_bits()
        &&& self.spec_received() == old.spec_received()
        &&& self.spec_max_sequence_distance() == old.spec_max_sequence_distance()
        &&& self.spec_retry_timeout() == old.spec_retry_timeout()
        &&& self.spec_max_retries() == old.spec_max_retries()
    }

    /// An endpoint with nothing sent or received, remembering `buffer_size` received
    /// sequence numbers, retrying after 100 ms at most 10 times.
    pub fn new(buffer_size: usize) -> (r: Self)
        ensures
            r.is_fresh(buffer_size as nat),
    {
        let r = Self {
            local_sequence: 0,
            remote_sequence: 0,
            ack_bits: 0,
            sent_packets: HashMap::new(),
            received_packets: SequenceBuffer::new(buffer_size),
            max_sequence_distance: 32768,
            retry_timeout: 100,
            max_retries: 10,
        };
        proof {
            assert(r.spec_sent() =~= Map::<u16, SentRecord>::empty());
        }
        r
    }

    /// Hands out the next sequence number to send with.
    pub fn next_sequence(&mut self) -> (r: u16)
        ensures
            r == old(self).spec_local_sequence(),
            final(self).spec_local_sequence() == (old(self).spec_local_sequence() + 1) % 65536,
            final(self).spec_remote_sequence() == old(self).spec_remote_sequence(),
            final(self).spec_ack_bits() == old(self).spec_ack_bits(),
            final(self).spec_sent() == old(self).spec_sent(),
            final(self).spec_received() == old(self).spec_received(),
            final(self).spec_max_sequence_distance() == old(self).spec_max_sequence_distance(),
            final(self).spec_retry_timeout() == old(self).spec_retry_timeout(),
            final(self).spec_max_retries() == old(self).spec_max_retries(),
    {
        let seq = self.local_sequence;
        self.local_sequence = self.local_sequence.wrapping_add(1);
        seq
    }

    /// Records a packet as sent, to wait for its acknowledgement.
    pub fn on_packet_sent(&mut self, sequence: u16, send_time: u64, data: Vec<u8>)
        ensures
            final(self).spec_sent() == old(self).spec_sent().insert(
                sequence,
                SentRecord { send_time, retry_count: 0, data: data@ },
            ),
            final(self).same_but_sent(old(self)),
    {
        let ghost data_view = data@;
        self.sent_packets.insert(sequence, SentPacketData { send_time, retry_count: 0, data });
        proof {
            assert(self.spec_sent() =~= old(self).spec_sent().insert(
                sequence,
                SentRecord { send_time, retry_count: 0, data: data_view },
            ));
        }
    }

    /// Receiving `sequence` would shift the acknowledgement bits by their full width, which
    /// overflows: it is new, ahead of the newest received, by exactly 32.
    pub open spec fn receive_overflows(&self, sequence: u16) -> bool {
        &&& !(self.spec_received().spec_get(sequence) is Some)
        &&& spec_sequence_greater_than(sequence, self.spec_remote_sequence())
        &&& spec_sequence_diff(sequence, self.spec_remote_sequence()) == 32
    }

    /// The acknowledgement bits after receiving `sequence` for the first time. A number
    /// ahead of the newest, by `diff` up to 32, shifts the bits by `diff`, sets bit 0, and
    /// sets bit `diff - 1`, the bit of the previous newest (bit `i` stands for the number
    /// `i + 1` before the newest); one further ahead leaves only bit 0. An older number up
    /// to 32 behind sets its own bit `diff - 1`.
    pub open spec fn ack_bits_after_receive(&self, sequence: u16) -> u32 {
        let remote = self.spec_remote_sequence();
        let ack_bits = self.spec_ack_bits();
        if spec_sequence_greater_than(sequence, remote) {
            let diff = spec_sequence_diff(sequence, remote);
            if diff <= 32 {
                (ack_bits << (diff as u32)) | 1u32 | (1u32 << ((diff - 1) as u32))
            } else {
                1u32
            }
        } else {
            let diff = spec_sequence_diff(remote, sequence);
            if 0 < diff <= 32 {
                ack_bits | (1u32 << ((diff - 1) as u32))
            } else {
                ack_bits
            }
        }
    }

    /// Receiving `sequence` changes the state: it is within the accepted distance of the
    /// newest received and was not seen before.
    pub open spec fn receive_is_new(&self, sequence: u16) -> bool {
        let d = spec_sequence_diff(sequence, self.spec_remote_sequence());
        let distance = if d < 0 {
            -d
        } else {
            d
        };
        &&& distance <= self.spec_max_sequence_distance()
        &&& !(self.spec_received().spec_get(sequence) is Some)
    }

    /// Whether taking in `sequence` would find no received sequence numbers remembered
    /// or overflow the shift of the acknowledgement bits.
    pub fn receive_would_panic(&self, sequence: u16) -> (r: bool)
        requires
            self.wf(),
        ensures
            r == (self.spec_received().spec_size() == 0 || self.receive_overflows(sequence)),
    {
        if self.received_packets.size == 0 {
            return true;
        }
        !self.received_packets.contains(sequence) && sequence_greater_than(
            sequence,
            self.remote_sequence,
        ) && sequence_diff(sequence, self.remote_sequence) == 32
    }

    /// All but the packets waiting for acknowledgement, after `old` took in `sequence`: a
    /// new one is recorded in the ring, becomes the newest when it is ahead, and updates
    /// the acknowledgement bits; otherwise nothing changes.
    pub open spec fn receive_side_after(&self, old: &ReliableEndpoint, sequence: u16) -> bool {
        &&& self.spec_local_sequence() == old.spec_local_sequence()
        &&& self.spec_max_sequence_distance() == old.spec_max_sequence_distance()
        &&& self.spec_retry_timeout() == old.spec_retry_timeout()
        &&& self.spec_max_retries() == old.spec_max_retries()
        &&& if old.receive_is_new(sequence) {
            &&& self.spec_received().spec_entries() == slots_after_insert(
                old.spec_received().spec_entries(),
                old.spec_received().spec_sequence(),
                old.spec_received().spec_size(),
                sequence,
                true,
            )
            &&& self.spec_received().spec_sequence() == position_after_insert(
                old.spec_received().spec_sequence(),
                sequence,
            )
            &&& self.spec_received().spec_size() == old.spec_received().spec_size()
            &&& self.spec_ack_bits() == old.ack_bits_after_receive(sequence)
            &&& self.spec_remote_sequence() == if spec_sequence_greater_than(
                sequence,
                old.spec_remote_sequence(),
            ) {
                sequence
            } else {
                old.spec_remote_sequence()
            }
        } else {
            &&& self.spec_received() == old.spec_received()
            &&& self.spec_ack_bits() == old.spec_ack_bits()
            &&& self.spec_remote_sequence() == old.spec_remote_sequence()
        }
    }

    /// Processes a received sequence number: a new one is recorded, becomes the newest
    /// when it is ahead (shifting the acknowledgement bits), or sets its bit among the 32
    /// before the newest. A repeated or too distant one changes nothing.
    pub fn on_packet_received(&mut self, sequence: u16, receive_time: u64)
        requires
            old(self).wf(),
            old(self).spec_received().spec_size() > 0,
            !old(self).receive_overflows(sequence),
        ensures
            final(self).wf(),
            !old(self).receive_is_new(sequence) ==> *final(self) == *old(self),
            final(self).receive_side_after(old(self), sequence),
            final(self).spec_sent() == old(self).spec_sent(),
    {
        let d = sequence_diff(sequence, self.remote_sequence);
        let distance = (if d < 0 {
            -d
        } else {
            d
        }) as u16;
        if distance > self.max_sequence_distance {
            return;
        }
        if !self.received_packets.contains(sequence) {
            self.received_packets.insert(sequence, true);
            if sequence_greater_than(sequence, self.remote_sequence) {
                let diff = sequence_diff(sequence, self.remote_sequence) as u32;
                if diff <= 32 {
                    self.ack_bits = (self.ack_bits << diff) | 1 | (1u32 << (diff - 1));
                } else {
                    self.ack_bits = 1;
                }
                self.remote_sequence = sequence;
            } else {
                let diff = sequence_diff(self.remote_sequence, sequence) as u32;
                if diff > 0 && diff <= 32 {
                    self.ack_bits = self.ack_bits | (1u32 << (diff - 1));
                }
            }
        }
    }

    /// Packets whose acknowledgement is overdue: waiting at least the retry timeout since
    /// they were last sent.
    pub open spec fn is_due(&self, rec: SentRecord, now: u64) -> bool {
        elapsed(now, rec.send_time) >= self.spec_retry_timeout()
    }

    /// An overdue packet that has been sent again as often as allowed is given up.
    pub open spec fn is_given_up(&self, rec: SentRecord, now: u64) -> bool {
        self.is_due(rec, now) && rec.retry_count >= self.spec_max_retries()
    }

    /// An overdue packet that may still be sent again.
    pub open spec fn is_resent(&self, rec: SentRecord, now: u64) -> bool {
        self.is_due(rec, now) && rec.retry_count < self.spec_max_retries()
    }

    /// A waiting packet's record after an update at `now`: a resent one is stamped with
    /// `now` and counts one more retry.
    pub open spec fn record_after_update(&self, rec: SentRecord, now: u64) -> SentRecord {
        if self.is_resent(rec, now) {
            SentRecord { send_time: now, retry_count: (rec.retry_count + 1) as u32, data: rec.data }
        } else {
            rec
        }
    }

    /// The waiting packets after an update at `now`: given-up ones leave, resent ones are
    /// stamped with `now` and count one more retry.
    pub open spec fn sent_after_update(&self, now: u64) -> Map<u16, SentRecord> {
        let m = self.spec_sent();
        Map::new(
            |k: u16| m.contains_key(k) && !self.is_given_up(m[k], now),
            |k: u16| self.record_after_update(m[k], now),
        )
    }

    /// The waiting packets once the records of those in `done` have been updated at `now`.
    spec fn sent_with_updated(&self, now: u64, done: Seq<u16>) -> Map<u16, SentRecord> {
        let m = self.spec_sent();
        Map::new(
            |k: u16| m.contains_key(k),
            |k: u16|
                if done.contains(k) {
                    self.record_after_update(m[k], now)
                } else {
                    m[k]
                },
        )
    }

    /// The updated waiting packets once those in `removed` have been given up.
    spec fn sent_with_removed(&self, now: u64, removed: Seq<u16>) -> Map<u16, SentRecord> {
        let m = self.spec_sent();
        Map::new(
            |k: u16| m.contains_key(k) && !(removed.contains(k) && self.is_given_up(m[k], now)),
            |k: u16| self.record_after_update(m[k], now),
        )
    }

    /// Sends overdue packets again: returns each packet to resend with its sequence
    /// number, once each, in no particular order, and gives up those that were sent again
    /// as often as allowed.
    pub fn update(&mut self, current_time: u64) -> (r: Vec<(u16, Vec<u8>)>)
        ensures
            final(self).spec_sent() == old(self).sent_after_update(current_time),
            final(self).same_but_sent(old(self)),
            forall|i: int|
                0 <= i < r@.len() ==> {
                    &&& old(self).spec_sent().contains_key(#[trigger] r@[i].0)
                    &&& old(self).is_resent(old(self).spec_sent()[r@[i].0], current_time)
                    &&& r@[i].1@ == old(self).spec_sent()[r@[i].0].data
                },
            forall|k: u16|
                old(self).spec_sent().contains_key(k) && old(self).is_resent(
                    old(self).spec_sent()[k],
                    current_time,
                ) ==> exists|i: int| 0 <= i < r@.len() && #[trigger] r@[i].0 == k,
            forall|i: int, j: int| 0 <= i < j < r@.len() ==> r@[i].0 != r@[j].0,
    {
        let mut keys: Vec<u16> = Vec::new();
        for k in it: self.sent_packets.keys()
            invariant
                keys@ == it.seq().unref().take(it.index() as int),
                it.seq().unref().to_set() == self.sent_packets@.dom(),
                it.seq().no_duplicates(),
                it.index() == it.seq().len() ==> keys@ == it.seq().unref(),
        {
            keys.push(*k);
            proof {
                assert(keys@ =~= it.seq().unref().take(it.index() + 1));
                assert(it.index() + 1 == it.seq().len() ==> keys@ =~= it.seq().unref());
            }
        }
        proof {
            assert(keys@.to_set() =~= self.sent_packets@.dom());
            assert(keys@.no_duplicates());
            assert(self.spec_sent() =~= old(self).sent_with_updated(current_time, keys@.take(0)));
        }
        let mut packets_to_resend: Vec<(u16, Vec<u8>)> = Vec::new();
        let mut packets_to_remove: Vec<u16> = Vec::new();
        let mut j: usize = 0;
        while j < keys.len()
            invariant
                j <= keys@.len(),
                keys@.no_duplicates(),
                keys@.to_set() == old(self).spec_sent().dom(),
                self.local_sequence == old(self).local_sequence,
                self.remote_sequence == old(self).remote_sequence,
                self.ack_bits == old(self).ack_bits,
                self.received_packets == old(self).received_packets,
                self.max_sequence_distance == old(self).max_sequence_distance,
                self.retry_timeout == old(self).retry_timeout,
                self.max_retries == old(self).max_retries,
                self.spec_sent() == old(self).sent_with_updated(current_time, keys@.take(j as int)),
                forall|i: int|
                    0 <= i < packets_to_remove@.len() ==> {
                        &&& old(self).spec_sent().contains_key(#[trigger] packets_to_remove@[i])
                        &&& old(self).is_given_up(
                            old(self).spec_sent()[packets_to_remove@[i]],
                            current_time,
                        )
                    },
                forall|k: u16|
                    keys@.take(j as int).contains(k) && old(self).is_given_up(
                        old(self).spec_sent()[k],
                        current_time,
                    ) ==> packets_to_remove@.contains(k),
                forall|i: int|
                    0 <= i < packets_to_resend@.len() ==> {
                        &&& keys@.take(j as int).contains(#[trigger] packets_to_resend@[i].0)
                        &&& old(self).spec_sent().contains_key(packets_to_resend@[i].0)
                        &&& old(self).is_resent(
                            old(self).spec_sent()[packets_to_resend@[i].0],
                            current_time,
                        )
                        &&& packets_to_resend@[i].1@ == old(
                            self,
                        ).spec_sent()[packets_to_resend@[i].0].data
                    },
                forall|k: u16|
                    keys@.take(j as int).contains(k) && old(self).spec_sent().contains_key(k)
                        && old(self).is_resent(old(self).spec_sent()[k], current_time)
                        ==> exists|i: int|
                        0 <= i < packets_to_resend@.len() && #[trigger] packets_to_resend@[i].0
                            == k,
                forall|i: int, i2: int|
                    0 <= i < i2 < packets_to_resend@.len() ==> packets_to_resend@[i].0
                        != packets_to_resend@[i2].0,
            decreases keys@.len() - j,
        {
            let sequence = keys[j];
            let ghost done = keys@.take(j as int);
            let ghost done2 = keys@.take(j as int + 1);
            let ghost m = old(self).spec_sent();
            let ghost rec = m[sequence];
            let ghost raw = self.sent_packets@;
            let ghost to_remove = packets_to_remove@;
            let ghost to_resend = packets_to_resend@;
            let ghost before = self.spec_sent();
            proof {
                assert(keys@.to_set().contains(sequence)) by {
                    assert(keys@[j as int] == sequence);
                }
                assert(!done.contains(sequence)) by {
                    if done.contains(sequence) {
                        let x = choose|x: int| 0 <= x < done.len() && done[x] == sequence;
                        assert(keys@[x] == keys@[j as int]);
                    }
                }
                lemma_take_one_more(keys@, j as int);
                assert(self.spec_sent().contains_key(sequence));
                assert(self.spec_sent()[sequence] == rec);
            }
            let removed = self.sent_packets.remove(&sequence);
            match removed {
                Some(mut packet_data) => {
                    proof {
                        assert(packet_data == raw[sequence]);
                    }
                    let elapsed = if current_time >= packet_data.send_time {
                        current_time - packet_data.send_time
                    } else {
                        0
                    };
                    if elapsed >= self.retry_timeout {
                        if packet_data.retry_count >= self.max_retries {
                            packets_to_remove.push(sequence);
                            proof {
                                assert(packets_to_remove@.last() == sequence);
                                assert forall|k: u16| to_remove.contains(k) implies packets_to_remove@.contains(k) by {
                                    let x = choose|x: int| 0 <= x < to_remove.len() && to_remove[x] == k;
                                    assert(packets_to_remove@[x] == k);
                                }
                            }
                        } else {
                            packet_data.retry_count = packet_data.retry_count + 1;
                            packet_data.send_time = current_time;
                            let copy = packet_data.data.clone();
                            proof {
                                assert(copy@ =~= packet_data.data@);
                            }
                            packets_to_resend.push((sequence, copy));
                            proof {
                                assert(!old(self).is_given_up(rec, current_time));
                                assert(packets_to_resend@.last().0 == sequence);
                                assert forall|k: u16| done.contains(k) && m.contains_key(k) && old(self).is_resent(m[k], current_time)
                                    implies exists|i: int| 0 <= i < packets_to_resend@.len() && #[trigger] packets_to_resend@[i].0 == k by {
                                    let x = choose|x: int| 0 <= x < to_resend.len() && #[trigger] to_resend[x].0 == k;
                                    assert(packets_to_resend@[x].0 == k);
                                }
                            }
                        }
                    } else {
                        proof {
                            assert(!old(self).is_given_up(rec, current_time));
                        }
                    }
                    let ghost stored = packet_data;
                    self.sent_packets.insert(sequence, packet_data);
                    proof {
                        assert(self.sent_packets@ == raw.insert(sequence, stored));
                        assert(stored.send_time == old(self).record_after_update(rec, current_time).send_time);
                        assert(stored.retry_count == old(self).record_after_update(rec, current_time).retry_count);
                        assert(stored.data@ == old(self).record_after_update(rec, current_time).data);
                        assert(self.spec_sent() =~= before.insert(
                            sequence,
                            old(self).record_after_update(rec, current_time),
                        ));
                    }
                },
                None => {
                    proof {
                        assert(false);
                    }
                },
            }
            proof {
                let target = old(self).sent_with_updated(current_time, done2);
                assert forall|k: u16| #[trigger] target.contains_key(k) implies target[k] == self.spec_sent()[k] by {
                    if k != sequence {
                        assert(done2.contains(k) == done.contains(k));
                    }
                }
                assert(self.spec_sent() =~= target);
                assert forall|k: u16| done2.contains(k) && old(self).is_given_up(m[k], current_time)
                    implies packets_to_remove@.contains(k) by {
                    if k != sequence {
                        assert(done.contains(k));
                        assert(to_remove.contains(k));
                        let x = choose|x: int| 0 <= x < to_remove.len() && to_remove[x] == k;
                        assert(packets_to_remove@[x] == k);
                    } else {
                        assert(packets_to_remove@.last() == sequence);
                    }
                }
            }
            j = j + 1;
        }
        proof {
            assert(keys@.take(keys@.len() as int) =~= keys@);
            assert forall|k: u16| old(self).spec_sent().contains_key(k) implies keys@.take(keys@.len() as int).contains(k) by {
                assert(keys@.to_set().contains(k));
            }
            assert(self.spec_sent() =~= old(self).sent_with_removed(current_time, packets_to_remove@.take(0)));
        }
        let mut i: usize = 0;
        while i < packets_to_remove.len()
            invariant
                i <= packets_to_remove@.len(),
                self.local_sequence == old(self).local_sequence,
                self.remote_sequence == old(self).remote_sequence,
                self.ack_bits == old(self).ack_bits,
                self.received_packets == old(self).received_packets,
                self.max_sequence_distance == old(self).max_sequence_distance,
                self.retry_timeout == old(self).retry_timeout,
                self.max_retries == old(self).max_retries,
                forall|x: int|
                    0 <= x < packets_to_remove@.len() ==> {
                        &&& old(self).spec_sent().contains_key(#[trigger] packets_to_remove@[x])
                        &&& old(self).is_given_up(
                            old(self).spec_sent()[packets_to_remove@[x]],
                            current_time,
                        )
                    },
                forall|k: u16|
                    old(self).spec_sent().contains_key(k) && old(self).is_given_up(
                        old(self).spec_sent()[k],
                        current_time,
                    ) ==> packets_to_remove@.contains(k),
                self.spec_sent() == old(self).sent_with_removed(
                    current_time,
                    packets_to_remove@.take(i as int),
                ),
            decreases packets_to_remove@.len() - i,
        {
            let sequence = packets_to_remove[i];
            let ghost prev = self.spec_sent();
            self.sent_packets.remove(&sequence);
            proof {
                lemma_take_one_more(packets_to_remove@, i as int);
                assert(self.spec_sent() =~= prev.remove(sequence));
                let target = old(self).sent_with_removed(
                    current_time,
                    packets_to_remove@.take(i as int + 1),
                );
                assert forall|k: u16| #[trigger] target.contains_key(k) <==> prev.remove(sequence).contains_key(k) by {
                    if k != sequence {
                        assert(packets_to_remove@.take(i as int + 1).contains(k) == packets_to_remove@.take(i as int).contains(k));
                    }
                }
                assert(prev.remove(sequence) =~= target);
                assert(self.spec_sent() =~= old(self).sent_with_removed(
                    current_time,
                    packets_to_remove@.take(i as int + 1),
                ));
            }
            i = i + 1;
        }
        proof {
            assert(packets_to_remove@.take(packets_to_remove@.len() as int) =~= packets_to_remove@);
            assert(self.spec_sent() =~= old(self).sent_after_update(current_time));
        }
        packets_to_resend
    }

    /// Processes acknowledgements from the other side: `ack` and each sequence number
    /// `ack - (i + 1)` whose bit `i` is set in `ack_bits` no longer wait.
    pub fn process_acks(&mut self, ack: u16, ack_bits: u32)
        ensures
            final(self).spec_sent() == old(self).spec_sent().remove_keys(acked_by(ack, ack_bits)),
            final(self).same_but_sent(old(self)),
    {
        self.sent_packets.remove(&ack);
        let mut i: u16 = 0;
        while i < 32
            invariant
                i <= 32,
                self.local_sequence == old(self).local_sequence,
                self.remote_sequence == old(self).remote_sequence,
                self.ack_bits == old(self).ack_bits,
                self.received_packets == old(self).received_packets,
                self.max_sequence_distance == old(self).max_sequence_distance,
                self.retry_timeout == old(self).retry_timeout,
                self.max_retries == old(self).max_retries,
                self.spec_sent() == old(self).spec_sent().remove_keys(
                    Set::new(
                        |k: u16|
                            k == ack || exists|j: int|
                                0 <= j < i && (ack_bits >> (j as u32)) & 1u32 == 1u32
                                    && #[trigger] (((ack - (j + 1)) % 65536) as u16) == k,
                    ),
                ),
            decreases 32 - i,
        {
            let ghost before = self.spec_sent();
            let bit_set = (ack_bits & (1u32 << i as u32)) != 0;
            proof {
                let ii = i as u32;
                assert(((ack_bits & (1u32 << ii)) != 0) == ((ack_bits >> ii) & 1u32 == 1u32))
                    by (bit_vector)
                    requires
                        ii < 32,
                ;
            }
            let acked_seq = ack.wrapping_sub(i + 1);
            if bit_set {
                self.sent_packets.remove(&acked_seq);
            }
            proof {
                let prev = Set::new(
                    |k: u16|
                        k == ack || exists|j: int|
                            0 <= j < i && (ack_bits >> (j as u32)) & 1u32 == 1u32 && #[trigger] (((
                            ack - (j + 1)) % 65536) as u16) == k,
                );
                let next = Set::new(
                    |k: u16|
                        k == ack || exists|j: int|
                            0 <= j < i + 1 && (ack_bits >> (j as u32)) & 1u32 == 1u32
                                && #[trigger] (((ack - (j + 1)) % 65536) as u16) == k,
                );
                assert(acked_seq == (((ack - (i + 1)) % 65536) as u16));
                assert forall|k: u16| next.contains(k) <==> (prev.contains(k) || (bit_set && k
                    == acked_seq)) by {
                    if next.contains(k) && k != ack {
                        let j = choose|j: int|
                            0 <= j < i + 1 && (ack_bits >> (j as u32)) & 1u32 == 1u32 && #[trigger] (((
                            ack - (j + 1)) % 65536) as u16) == k;
                        if j < i {
                            assert(prev.contains(k));
                        }
                    }
                    if prev.contains(k) && k != ack {
                        let j = choose|j: int|
                            0 <= j < i && (ack_bits >> (j as u32)) & 1u32 == 1u32 && #[trigger] (((
                            ack - (j + 1)) % 65536) as u16) == k;
                        assert(next.contains(k));
                    }
                }
                assert(self.spec_sent() =~= if bit_set {
                    before.remove(acked_seq)
                } else {
                    before
                });
                assert(self.spec_sent() =~= old(self).spec_sent().remove_keys(next));
            }
            i = i + 1;
        }
        proof {
            assert(self.spec_sent() =~= old(self).spec_sent().remove_keys(acked_by(ack, ack_bits)));
        }
    }

    /// The newest sequence number received and the bits of the 32 before it.
    pub fn get_ack_info(&self) -> (r: (u16, u32))
        ensures
            r == (self.spec_remote_sequence(), self.spec_ack_bits()),
    {
        (self.remote_sequence, self.ack_bits)
    }

    /// How many packets wait for an acknowledgement, and the two sequence numbers.
    pub fn stats(&self) -> (r: ReliabilityStats)
        ensures
            r.packets_in_flight == self.spec_sent().dom().len(),
            r.local_sequence == self.spec_local_sequence(),
            r.remote_sequence == self.spec_remote_sequence(),
    {
        proof {
            assert(self.spec_sent().dom() =~= self.sent_packets@.dom());
        }
        ReliabilityStats {
            packets_in_flight: self.sent_packets.len(),
            local_sequence: self.local_sequence,
            remote_sequence: self.remote_sequence,
        }
    }
}

/// An acknowledgement covers its own sequence number and, for each set bit `i`, the
/// number `i + 1` before it, and nothing else.
pub proof fn lemma_acked_by(ack: u16, ack_bits: u32, i: int)
    requires
        0 <= i < 32,
    ensures
        acked_by(ack, ack_bits).contains(ack),
        (ack_bits >> (i as u32)) & 1u32 == 1u32 ==> acked_by(ack, ack_bits).contains(
            ((ack - (i + 1)) % 65536) as u16,
        ),
        ack_bits == 0 ==> acked_by(ack, ack_bits) == set![ack],
{
    let k = ((ack - (i + 1)) % 65536) as u16;
    if (ack_bits >> (i as u32)) & 1u32 == 1u32 {
        assert(acked_by(ack, ack_bits).contains(k));
    }
    if ack_bits == 0 {
        assert forall|k: u16| #[trigger] acked_by(ack, ack_bits).contains(k) implies k == ack by {
            if k != ack {
                let j = choose|j: int|
                    0 <= j < 32 && (ack_bits >> (j as u32)) & 1u32 == 1u32 && #[trigger] (((ack - (j
                        + 1)) % 65536) as u16) == k;
                let jj = j as u32;
                assert((0u32 >> jj) & 1u32 == 0u32) by (bit_vector);
            }
        }
        assert(acked_by(ack, ack_bits) =~= set![ack]);
    }
}

/// The bits of `(b << 1) | 1`: bit 0 is set, and bit `i` is bit `i - 1` of `b`.
proof fn lemma_shift_in_bit(b: u32, i: u32)
    requires
        i < 32,
    ensures
        i == 0 ==> ((b << 1u32) | 1u32) >> i & 1u32 == 1u32,
        i > 0 ==> ((b << 1u32) | 1u32) >> i & 1u32 == (b >> ((i - 1) as u32)) & 1u32,
{
    assert(i < 32 ==> (i == 0 ==> ((b << 1u32) | 1u32) >> i & 1u32 == 1u32)) by (bit_vector);
    assert(0 < i < 32 ==> ((b << 1u32) | 1u32) >> i & 1u32 == (b >> ((i - 1) as u32)) & 1u32)
        by (bit_vector);
}

/// The bits of `b | (1 << j)`: bit `j` is set, and every other bit is that of `b`.
proof fn lemma_set_bit(b: u32, j: u32, i: u32)
    requires
        i < 32,
        j < 32,
    ensures
        i == j ==> (b | (1u32 << j)) >> i & 1u32 == 1u32,
        i != j ==> (b | (1u32 << j)) >> i & 1u32 == (b >> i) & 1u32,
{
    assert(i < 32 && j < 32 && i == j ==> (b | (1u32 << j)) >> i & 1u32 == 1u32) by (bit_vector);
    assert(i < 32 && j < 32 && i != j ==> (b | (1u32 << j)) >> i & 1u32 == (b >> i) & 1u32)
        by (bit_vector);
}

/// Receiving the sequence number right after the newest acknowledges it and keeps every
/// acknowledgement of the 32 numbers before it; only the number that falls out of the
/// window, 32 before the old newest, is no longer acknowledged.
pub proof fn lemma_in_order_receive_keeps_acks(
    before: ReliableEndpoint,
    after: ReliableEndpoint,
    sequence: u16,
)
    requires
        before.wf(),
        after.receive_side_after(&before, sequence),
        !(before.spec_received().spec_get(sequence) is Some),
        sequence == ((before.spec_remote_sequence() + 1) % 65536) as u16,
    ensures
        after.spec_remote_sequence() == sequence,
        acked_by(after.spec_remote_sequence(), after.spec_ack_bits()) == acked_by(
            before.spec_remote_sequence(),
            before.spec_ack_bits(),
        ).remove(((before.spec_remote_sequence() - 32) % 65536) as u16).insert(sequence),
{
    let r = before.spec_remote_sequence();
    let b = before.spec_ack_bits();
    let nb = after.spec_ack_bits();
    let dropped = ((r - 32) % 65536) as u16;
    assert(before.receive_is_new(sequence));
    assert(spec_sequence_diff(sequence, r) == 1);
    assert(spec_sequence_greater_than(sequence, r));
    assert(((b << 1u32) | 1u32 | (1u32 << 0u32)) == (b << 1u32) | 1u32) by (bit_vector);
    assert(nb == (b << 1u32) | 1u32);
    let old_set = acked_by(r, b);
    let new_set = acked_by(sequence, nb);
    assert forall|k: u16| new_set.contains(k) implies old_set.remove(dropped).insert(sequence).contains(k) by {
        if k != sequence {
            let i = choose|i: int|
                0 <= i < 32 && (nb >> (i as u32)) & 1u32 == 1u32 && #[trigger] (((sequence - (i
                    + 1)) % 65536) as u16) == k;
            lemma_shift_in_bit(b, i as u32);
            assert(k == ((r - i) % 65536) as u16);
            if i == 0 {
                assert(k == r);
            } else {
                let j = i - 1;
                assert((b >> (j as u32)) & 1u32 == 1u32);
                assert(((r - (j + 1)) % 65536) as u16 == k);
                assert(old_set.contains(k));
            }
            assert(k != dropped);
        }
    }
    assert forall|k: u16| old_set.remove(dropped).insert(sequence).contains(k) implies new_set.contains(k) by {
        if k != sequence {
            if k == r {
                lemma_shift_in_bit(b, 0);
                assert(((sequence - (0 + 1)) % 65536) as u16 == k);
            } else {
                let j = choose|j: int|
                    0 <= j < 32 && (b >> (j as u32)) & 1u32 == 1u32 && #[trigger] (((r - (j
                        + 1)) % 65536) as u16) == k;
                assert(j < 31);
                lemma_shift_in_bit(b, (j + 1) as u32);
                assert((nb >> ((j + 1) as u32)) & 1u32 == 1u32);
                assert(((sequence - ((j + 1) + 1)) % 65536) as u16 == k);
            }
        }
    }
    assert(new_set =~= old_set.remove(dropped).insert(sequence));
}

/// The bits of `(b << d) | 1 | (1 << (d - 1))`: bits 0 and `d - 1` are set, bit `i >= d`
/// is bit `i - d` of `b`, and the bits between are clear.
proof fn lemma_jump_bits(b: u32, d: u32, i: u32)
    requires
        1 <= d <= 31,
        i < 32,
    ensures
        (((b << d) | 1u32 | (1u32 << ((d - 1) as u32))) >> i) & 1u32 == if i == 0 || i == d - 1 {
            1u32
        } else if i >= d {
            (b >> ((i - d) as u32)) & 1u32
        } else {
            0u32
        },
{
    assert(1 <= d <= 31 && i < 32 ==> (((b << d) | 1u32 | (1u32 << ((d - 1) as u32))) >> i) & 1u32
        == if i == 0 || i == d - 1 {
        1u32
    } else if i >= d {
        (b >> ((i - d) as u32)) & 1u32
    } else {
        0u32
    }) by (bit_vector);
}

/// Receiving a sequence number up to 31 ahead of the newest acknowledges it and the number
/// right before it, and keeps every acknowledgement still among the 32 numbers before it:
/// nothing that was acknowledged and remains in reach is lost.
#[verifier::spinoff_prover]
#[verifier::rlimit(40)]
pub proof fn lemma_jump_keeps_acks(before: ReliableEndpoint, after: ReliableEndpoint, sequence: u16)
    requires
        before.wf(),
        after.receive_side_after(&before, sequence),
        !(before.spec_received().spec_get(sequence) is Some),
        spec_sequence_greater_than(sequence, before.spec_remote_sequence()),
        spec_sequence_diff(sequence, before.spec_remote_sequence()) <= 31,
    ensures
        after.spec_remote_sequence() == sequence,
        acked_by(after.spec_remote_sequence(), after.spec_ack_bits()) == Set::new(
            |k: u16|
                k == sequence || k == ((sequence - 1) % 65536) as u16 || (acked_by(
                    before.spec_remote_sequence(),
                    before.spec_ack_bits(),
                ).contains(k) && 1 <= (sequence - k) % 65536 <= 32),
        ),
{
    let r = before.spec_remote_sequence();
    let b = before.spec_ack_bits();
    let nb = after.spec_ack_bits();
    let d = spec_sequence_diff(sequence, r);
    assert(before.receive_is_new(sequence));
    assert(1 <= d <= 31);
    let du = d as u32;
    assert(nb == (b << du) | 1u32 | (1u32 << ((du - 1) as u32)));
    assert(((sequence - r) % 65536) == d);
    let old_set = acked_by(r, b);
    let new_set = acked_by(sequence, nb);
    let target = Set::new(
        |k: u16|
            k == sequence || k == ((sequence - 1) % 65536) as u16 || (old_set.contains(k) && 1 <= (
            sequence - k) % 65536 <= 32),
    );
    assert forall|k: u16| new_set.contains(k) implies target.contains(k) by {
        if k != sequence {
            let i = choose|i: int|
                0 <= i < 32 && (nb >> (i as u32)) & 1u32 == 1u32 && #[trigger] (((sequence - (i
                    + 1)) % 65536) as u16) == k;
            lemma_jump_bits(b, du, i as u32);
            if i == 0 {
            } else if i == d - 1 {
                assert(k == r);
                assert((sequence - k) % 65536 == d);
            } else {
                assert(i >= d);
                let j = i - d;
                assert((b >> (j as u32)) & 1u32 == 1u32);
                assert(((r - (j + 1)) % 65536) as u16 == k);
                assert(old_set.contains(k));
                assert((sequence - k) % 65536 == i + 1);
            }
        }
    }
    assert forall|k: u16| target.contains(k) implies new_set.contains(k) by {
        if k == sequence {
        } else if k == ((sequence - 1) % 65536) as u16 {
            lemma_jump_bits(b, du, 0);
            assert(((sequence - (0 + 1)) % 65536) as u16 == k);
        } else if k == r {
            lemma_jump_bits(b, du, (du - 1) as u32);
            assert(((sequence - ((d - 1) + 1)) % 65536) as u16 == k);
        } else {
            let j = choose|j: int|
                0 <= j < 32 && (b >> (j as u32)) & 1u32 == 1u32 && #[trigger] (((r - (j
                    + 1)) % 65536) as u16) == k;
            assert((sequence - k) % 65536 == d + j + 1);
            let i = d + j;
            assert(i < 32);
            lemma_jump_bits(b, du, i as u32);
            assert((nb >> (i as u32)) & 1u32 == 1u32);
            assert(((sequence - (i + 1)) % 65536) as u16 == k);
        }
    }
    assert(new_set =~= target);
}

/// Receiving an older sequence number among the 32 before the newest acknowledges it and
/// keeps every other acknowledgement.
pub proof fn lemma_older_receive_adds_ack(
    before: ReliableEndpoint,
    after: ReliableEndpoint,
    sequence: u16,
)
    requires
        before.wf(),
        after.receive_side_after(&before, sequence),
        !(before.spec_received().spec_get(sequence) is Some),
        !spec_sequence_greater_than(sequence, before.spec_remote_sequence()),
        0 < spec_sequence_diff(before.spec_remote_sequence(), sequence) <= 32,
    ensures
        after.spec_remote_sequence() == before.spec_remote_sequence(),
        acked_by(after.spec_remote_sequence(), after.spec_ack_bits()) == acked_by(
            before.spec_remote_sequence(),
            before.spec_ack_bits(),
        ).insert(sequence),
{
    let r = before.spec_remote_sequence();
    let b = before.spec_ack_bits();
    let nb = after.spec_ack_bits();
    let d = spec_sequence_diff(r, sequence);
    assert(before.receive_is_new(sequence));
    let jj = (d - 1) as u32;
    assert(nb == b | (1u32 << jj));
    assert(((r - (jj + 1)) % 65536) as u16 == sequence);
    let old_set = acked_by(r, b);
    let new_set = acked_by(r, nb);
    assert forall|k: u16| new_set.contains(k) implies old_set.insert(sequence).contains(k) by {
        if k != r && k != sequence {
            let i = choose|i: int|
                0 <= i < 32 && (nb >> (i as u32)) & 1u32 == 1u32 && #[trigger] (((r - (i
                    + 1)) % 65536) as u16) == k;
            lemma_set_bit(b, jj, i as u32);
            assert(i != jj);
            assert((b >> (i as u32)) & 1u32 == 1u32);
        }
    }
    assert forall|k: u16| old_set.insert(sequence).contains(k) implies new_set.contains(k) by {
        if k == sequence {
            lemma_set_bit(b, jj, jj);
            assert((nb >> jj) & 1u32 == 1u32);
            assert(((r - (jj as int + 1)) % 65536) as u16 == k);
        } else if k != r {
            let i = choose|i: int|
                0 <= i < 32 && (b >> (i as u32)) & 1u32 == 1u32 && #[trigger] (((r - (i
                    + 1)) % 65536) as u16) == k;
            lemma_set_bit(b, jj, i as u32);
            assert((nb >> (i as u32)) & 1u32 == 1u32);
        }
    }
    assert(new_set =~= old_set.insert(sequence));
}

/// A sequence number that was taken in is remembered: taking it in again is no longer new,
/// so it changes nothing.
pub proof fn lemma_received_once(before: ReliableEndpoint, after: ReliableEndpoint, sequence: u16)
    requires
        before.wf(),
        before.spec_received().spec_size() > 0,
        after.receive_side_after(&before, sequence),
    ensures
        after.spec_received().spec_get(sequence) is Some,
        !after.receive_is_new(sequence),
{
    if before.receive_is_new(sequence) {
        lemma_insert_then_get(
            before.spec_received().spec_entries(),
            before.spec_received().spec_sequence(),
            before.spec_received().spec_size(),
            sequence,
            true,
        );
    } else {
        let d = spec_sequence_diff(sequence, before.spec_remote_sequence());
        assert(-32768 <= d <= 32768);
    }
}

/// The waiting packets after an update at `now` of an endpoint with the settings that
/// every endpoint keeps: a packet waiting at least 100 ms is sent again, stamped with
/// `now`, unless it was already sent again 10 times, in which case it is given up.
pub open spec fn waiting_after_update(m: Map<u16, SentRecord>, now: u64) -> Map<u16, SentRecord> {
    Map::new(
        |k: u16| m.contains_key(k) && !(elapsed(now, m[k].send_time) >= 100 && m[k].retry_count >= 10),
        |k: u16|
            if elapsed(now, m[k].send_time) >= 100 && m[k].retry_count < 10 {
                SentRecord {
                    send_time: now,
                    retry_count: (m[k].retry_count + 1) as u32,
                    data: m[k].data,
                }
            } else {
                m[k]
            },
    )
}

/// Every endpoint updates its waiting packets by [`waiting_after_update`].
pub proof fn lemma_update_by_settings(e: ReliableEndpoint, now: u64)
    requires
        e.wf(),
    ensures
        e.sent_after_update(now) == waiting_after_update(e.spec_sent(), now),
{
    assert(e.sent_after_update(now) =~= waiting_after_update(e.spec_sent(), now));
}

/// The waiting packets after `k` updates, 100 ms apart, the first 100 ms after `t0`.
pub open spec fn waiting_after_updates(m: Map<u16, SentRecord>, t0: u64, k: nat) -> Map<
    u16,
    SentRecord,
>
    decreases k,
{
    if k == 0 {
        m
    } else {
        waiting_after_update(waiting_after_updates(m, t0, (k - 1) as nat), (t0 + 100 * k) as u64)
    }
}

/// A packet sent at `t0` and never acknowledged, with an update every 100 ms: at each of
/// the first 10 updates it is due and may be sent again, so it is sent again and counts
/// one more retry; at the eleventh it has been sent again 10 times and is given up.
pub proof fn lemma_ten_resends_then_given_up(sequence: u16, t0: u64, data: Seq<u8>, k: nat)
    requires
        t0 + 1100 <= u64::MAX,
        1 <= k <= 11,
    ensures
        ({
            let m = map![sequence => SentRecord { send_time: t0, retry_count: 0, data }];
            let before = waiting_after_updates(m, t0, (k - 1) as nat);
            let now = (t0 + 100 * k) as u64;
            &&& before == map![sequence => SentRecord {
                send_time: (t0 + 100 * (k - 1)) as u64,
                retry_count: (k - 1) as u32,
                data,
            }]
            &&& elapsed(now, before[sequence].send_time) >= 100
            &&& k <= 10 ==> before[sequence].retry_count < 10 && waiting_after_updates(m, t0, k)
                == map![sequence => SentRecord { send_time: now, retry_count: k as u32, data }]
            &&& k == 11 ==> before[sequence].retry_count >= 10 && waiting_after_updates(m, t0, k)
                == Map::<u16, SentRecord>::empty()
        }),
    decreases k,
{
    let m = map![sequence => SentRecord { send_time: t0, retry_count: 0, data }];
    let now = (t0 + 100 * k) as u64;
    if k > 1 {
        lemma_ten_resends_then_given_up(sequence, t0, data, (k - 1) as nat);
    } else {
        assert(waiting_after_updates(m, t0, 0) == m);
        assert(m == map![sequence => SentRecord {
            send_time: (t0 + 100 * (k - 1)) as u64,
            retry_count: (k - 1) as u32,
            data,
        }]);
    }
    let before = waiting_after_updates(m, t0, (k - 1) as nat);
    assert(waiting_after_updates(m, t0, k) == waiting_after_update(before, now));
    if k <= 10 {
        assert(waiting_after_update(before, now) =~= map![sequence => SentRecord {
            send_time: now,
            retry_count: k as u32,
            data,
        }]);
    } else {
        assert(waiting_after_update(before, now) =~= Map::<u16, SentRecord>::empty());
    }
}

/// A packet that was sent and then acknowledged no longer waits, whatever else was
/// acknowledged with it; the packets that were not acknowledged still wait.
pub proof fn lemma_sent_then_acked(
    sent: Map<u16, SentRecord>,
    sequence: u16,
    rec: SentRecord,
    ack: u16,
    ack_bits: u32,
    other: u16,
)
    requires
        acked_by(ack, ack_bits).contains(sequence),
        sent.contains_key(other),
        !acked_by(ack, ack_bits).contains(other),
        other != sequence,
    ensures
        !sent.insert(sequence, rec).remove_keys(acked_by(ack, ack_bits)).contains_key(sequence),
        sent.insert(sequence, rec).remove_keys(acked_by(ack, ack_bits)).contains_key(other),
        sent.insert(sequence, rec).remove_keys(acked_by(ack, ack_bits))[other] == sent[other],
{
}

/// An update never lets a packet wait longer than the retry timeout unless it is given
/// up: each packet still waiting afterwards was sent no earlier than the timeout before.
pub proof fn lemma_update_leaves_nothing_overdue(e: ReliableEndpoint, now: u64, k: u16)
    requires
        e.sent_after_update(now).contains_key(k),
        e.spec_retry_timeout() > 0,
    ensures
        elapsed(now, e.sent_after_update(now)[k].send_time) < e.spec_retry_timeout(),
{
}

} // verus!
