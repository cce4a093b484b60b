//! Packets: a bit-packed header and type, padded to a byte boundary, then the payload.
use vstd::prelude::*;
use vstd::arithmetic::power2::pow2;
use crate::serialize::bit_io::{
    BitBuffer, BitError, BitOp, BitRead, BitState, BitWrite, bits_of, bytes_for, lemma_after_ops,
    lemma_bits_to_nat_of_value, ops_bits, ops_valid, value_bits, zero_bits,
};
use crate::serialize::{
    BitDeserialize, BitSerialize, empty_state, lemma_ops_valid_append, lemma_serialize_deserialize,
    lemma_single_op, lemma_split_bits, lemma_then, reader_state, serialized_bits,
};

pub mod disconnect_reason;
pub mod deny_reason;

verus! {

/// The fixed part of every packet.
#[derive(Debug, Clone, Copy, PartialEq, Eq, Structural)]
pub struct PacketHeader {
    /// Identifies the protocol; 32 bits.
    pub protocol_id: u32,
    /// This packet's sequence number; 16 bits.
    pub sequence: u16,
    /// The newest sequence number received from the other side; 16 bits.
    pub ack: u16,
    /// Which of the 32 sequence numbers before `ack` were received; 32 bits.
    pub ack_bits: u32,
}

/// What a packet is for; its index is written in 4 bits.
#[derive(Debug, Clone, Copy, PartialEq, Eq, Structural)]
pub enum PacketType {
    ConnectionRequest,
    ConnectionChallenge { server_salt: u64 },
    ConnectionResponse { client_salt: u64 },
    ConnectionAccept,
    ConnectionDeny { reason: u8 },
    Disconnect { reason: u8 },
    KeepAlive,
    /// `channel` takes 3 bits, `is_fragment` 1 bit.
    Payload { channel: u8, is_fragment: bool },
}

impl DeepView for PacketHeader {
    type V = PacketHeader;

    open spec fn deep_view(&self) -> PacketHeader {
        *self
    }
}

impl DeepView for PacketType {
    type V = PacketType;

    open spec fn deep_view(&self) -> PacketType {
        *self
    }
}

/// `v` fits in `bits` bits.
pub open spec fn fits_bits(v: u64, bits: nat) -> bool {
    bits >= 64 || v < pow2(bits)
}

/// The write of a field: the low `bits` bits of `v`, or nothing when `v` does not fit.
pub open spec fn field_ops(v: u64, bits: nat) -> Seq<BitOp> {
    if fits_bits(v, bits) {
        seq![BitOp::Bits(v, bits)]
    } else {
        Seq::empty()
    }
}

/// Writes `value` in `bits` bits, refusing a value that does not fit.
pub(crate) fn write_field(writer: &mut BitBuffer, value: u64, bits: usize) -> (r: Result<(), BitError>)
    requires
        1 <= bits <= 64,
        old(writer)@.wf(),
        fits_bits(value, bits as nat) ==> old(writer).spec_write_room(bits as nat),
    ensures
        final(writer)@ == old(writer)@.after_ops(field_ops(value, bits as nat)),
        r is Ok <==> fits_bits(value, bits as nat),
        r matches Err(e) ==> e == BitError::InvalidData,
{
    proof {
        lemma_single_op(writer@, BitOp::Bits(value, bits as nat));
        assert(writer@.after_ops(Seq::<BitOp>::empty()) == writer@);
    }
    if bits < 64 {
        proof {
            vstd::bits::lemma_u64_pow2_no_overflow(bits as nat);
            vstd::bits::lemma_u64_shl_is_mul(1, bits as u64);
        }
        if value > (1u64 << bits as u64) - 1 {
            return Err(BitError::InvalidData);
        }
    }
    writer.write_bits(value, bits)
}

/// The writes of a header: its four fields at their widths.
pub open spec fn header_ops(h: PacketHeader) -> Seq<BitOp> {
    seq![
        BitOp::Bits(h.protocol_id as u64, 32),
        BitOp::Bits(h.sequence as u64, 16),
        BitOp::Bits(h.ack as u64, 16),
        BitOp::Bits(h.ack_bits as u64, 32),
    ]
}

/// A run of writes that is a single write.
proof fn lemma_ops_one(s: BitState, op: BitOp)
    requires
        s.wf(),
        op matches BitOp::Bits(_, n) ==> n <= 64,
    ensures
        s.after_ops(seq![op]) == s.after_op(op),
        ops_bits(seq![op]) == crate::serialize::bit_io::op_bits(op),
        ops_valid(seq![op]),
{
    lemma_single_op(s, op);
}

impl BitSerialize for PacketHeader {
    open spec fn spec_bit_ops(v: PacketHeader) -> Seq<BitOp> {
        header_ops(v)
    }

    open spec fn spec_bit_ok(v: PacketHeader) -> bool {
        true
    }

    proof fn lemma_bit_ops_valid(v: PacketHeader) {
        assert(ops_valid(header_ops(v)));
    }

    fn bit_serialize(&self, writer: &mut BitBuffer) -> (r: Result<(), BitError>) {
        let ghost s0 = writer@;
        let ghost o1 = BitOp::Bits(self.protocol_id as u64, 32);
        let ghost o2 = BitOp::Bits(self.sequence as u64, 16);
        let ghost o3 = BitOp::Bits(self.ack as u64, 16);
        let ghost o4 = BitOp::Bits(self.ack_bits as u64, 32);
        proof {
            assert(header_ops(*self) =~= seq![o1] + seq![o2] + seq![o3] + seq![o4]);
            lemma_ops_one(s0, o1);
            lemma_then(s0, seq![o1], seq![o2]);
            lemma_then(s0, seq![o1] + seq![o2], seq![o3]);
            lemma_then(s0, seq![o1] + seq![o2] + seq![o3], seq![o4]);
            lemma_ops_one(s0.after_ops(seq![o1]), o2);
            lemma_ops_one(s0.after_ops(seq![o1] + seq![o2]), o3);
            lemma_ops_one(s0.after_ops(seq![o1] + seq![o2] + seq![o3]), o4);
            lemma_single_op(s0, o2);
            lemma_single_op(s0, o3);
            lemma_single_op(s0, o4);
            assert(ops_bits(header_ops(*self)).len() == 96);
        }
        writer.write_bits(self.protocol_id as u64, 32)?;
        writer.write_bits(self.sequence as u64, 16)?;
        writer.write_bits(self.ack as u64, 16)?;
        writer.write_bits(self.ack_bits as u64, 32)?;
        Ok(())
    }
}



/// Reading a field whose bits stand at the read position gives the field back.
pub(crate) proof fn lemma_read_value(s: BitState, v: u64, n: nat)
    requires
        s.readable(),
        1 <= n <= 64,
        fits_bits(v, n),
        s.read_pos + n <= s.bits.len(),
        s.bits.subrange(s.read_pos as int, (s.read_pos + n) as int) == value_bits(v, n),
    ensures
        s.read_bits_result(n) == (Ok::<u64, BitError>(v), s.reading_at(s.read_pos + n)),
{
    lemma_bits_to_nat_of_value(v, n);
    if n == 64 {
        vstd::arithmetic::power2::lemma2_to64_rest();
    }
    vstd::arithmetic::div_mod::lemma_small_mod(v as nat, pow2(n));
}

impl BitDeserialize for PacketHeader {
    open spec fn spec_bit_read(s: BitState) -> (Result<PacketHeader, BitError>, BitState) {
        let (r1, t1) = s.read_bits_result(32);
        let (r2, t2) = t1.read_bits_result(16);
        let (r3, t3) = t2.read_bits_result(16);
        let (r4, t4) = t3.read_bits_result(32);
        match r1 {
            Err(e) => (Err(e), t1),
            Ok(w1) => match r2 {
                Err(e) => (Err(e), t2),
                Ok(w2) => match r3 {
                    Err(e) => (Err(e), t3),
                    Ok(w3) => match r4 {
                        Err(e) => (Err(e), t4),
                        Ok(w4) => (
                            Ok(
                                PacketHeader {
                                    protocol_id: w1 as u32,
                                    sequence: w2 as u16,
                                    ack: w3 as u16,
                                    ack_bits: w4 as u32,
                                },
                            ),
                            t4,
                        ),
                    },
                },
            },
        }
    }

    fn bit_deserialize(reader: &mut BitBuffer) -> (r: Result<PacketHeader, BitError>) {
        let protocol_id = reader.read_bits(32)? as u32;
        let sequence = reader.read_bits(16)? as u16;
        let ack = reader.read_bits(16)? as u16;
        let ack_bits = reader.read_bits(32)? as u32;
        Ok(PacketHeader { protocol_id, sequence, ack, ack_bits })
    }

    proof fn lemma_bit_roundtrip(v: PacketHeader, s: BitState) {
        let a = value_bits(v.protocol_id as u64, 32);
        let b = value_bits(v.sequence as u64, 16);
        let c = value_bits(v.ack as u64, 16);
        let d = value_bits(v.ack_bits as u64, 32);
        let o1 = BitOp::Bits(v.protocol_id as u64, 32);
        let o2 = BitOp::Bits(v.sequence as u64, 16);
        let o3 = BitOp::Bits(v.ack as u64, 16);
        let o4 = BitOp::Bits(v.ack_bits as u64, 32);
        assert(header_ops(v) =~= seq![o1] + seq![o2] + seq![o3] + seq![o4]);
        lemma_single_op(s, o1);
        lemma_single_op(s, o2);
        lemma_single_op(s, o3);
        lemma_single_op(s, o4);
        crate::serialize::bit_io::lemma_ops_bits_append(seq![o1], seq![o2]);
        crate::serialize::bit_io::lemma_ops_bits_append(seq![o1] + seq![o2], seq![o3]);
        crate::serialize::bit_io::lemma_ops_bits_append(seq![o1] + seq![o2] + seq![o3], seq![o4]);
        assert(ops_bits(header_ops(v)) =~= a + (b + (c + d)));
        assert(pow2(32) == 0x1_0000_0000 && pow2(16) == 0x1_0000) by {
            vstd::arithmetic::power2::lemma2_to64();
        }
        lemma_split_bits(s, a, b + (c + d));
        lemma_read_value(s, v.protocol_id as u64, 32);
        let t1 = s.reading_at((s.read_pos + 32) as nat);
        lemma_split_bits(t1, b, c + d);
        lemma_read_value(t1, v.sequence as u64, 16);
        let t2 = t1.reading_at((t1.read_pos + 16) as nat);
        lemma_split_bits(t2, c, d);
        lemma_read_value(t2, v.ack as u64, 16);
        let t3 = t2.reading_at((t2.read_pos + 16) as nat);
        lemma_read_value(t3, v.ack_bits as u64, 32);
    }
}

/// The bits of a header: its four fields at their widths, 96 bits in all.
pub proof fn lemma_header_bits(h: PacketHeader)
    ensures
        ops_bits(header_ops(h)) == value_bits(h.protocol_id as u64, 32) + value_bits(
            h.sequence as u64,
            16,
        ) + value_bits(h.ack as u64, 16) + value_bits(h.ack_bits as u64, 32),
        ops_bits(header_ops(h)).len() == 96,
        ops_valid(header_ops(h)),
{
    let s0 = empty_state();
    let o1 = BitOp::Bits(h.protocol_id as u64, 32);
    let o2 = BitOp::Bits(h.sequence as u64, 16);
    let o3 = BitOp::Bits(h.ack as u64, 16);
    let o4 = BitOp::Bits(h.ack_bits as u64, 32);
    assert(header_ops(h) =~= seq![o1] + seq![o2] + seq![o3] + seq![o4]);
    lemma_single_op(s0, o1);
    lemma_single_op(s0, o2);
    lemma_single_op(s0, o3);
    lemma_single_op(s0, o4);
    crate::serialize::bit_io::lemma_ops_bits_append(seq![o1], seq![o2]);
    crate::serialize::bit_io::lemma_ops_bits_append(seq![o1] + seq![o2], seq![o3]);
    crate::serialize::bit_io::lemma_ops_bits_append(seq![o1] + seq![o2] + seq![o3], seq![o4]);
}

/// The bits of a packet type: a 4-bit index and at most 64 bits of fields.
pub proof fn lemma_packet_type_bits_len(t: PacketType)
    ensures
        4 <= ops_bits(packet_type_ops(t)).len() <= 68,
{
    let s0 = empty_state();
    let head = seq![BitOp::Bits(packet_type_index(t), 4)];
    lemma_single_op(s0, BitOp::Bits(packet_type_index(t), 4));
    crate::serialize::bit_io::lemma_ops_bits_append(head, packet_type_field_ops(t));
    match t {
        PacketType::ConnectionChallenge { server_salt } => {
            lemma_single_op(s0, BitOp::Bits(server_salt, 64));
        },
        PacketType::ConnectionResponse { client_salt } => {
            lemma_single_op(s0, BitOp::Bits(client_salt, 64));
        },
        PacketType::ConnectionDeny { reason } => {
            lemma_single_op(s0, BitOp::Bits(reason as u64, 8));
        },
        PacketType::Disconnect { reason } => {
            lemma_single_op(s0, BitOp::Bits(reason as u64, 8));
        },
        PacketType::Payload { channel, is_fragment } => {
            lemma_single_op(s0, BitOp::Bits(channel as u64, 3));
            lemma_single_op(s0, BitOp::Bits(flag_value(is_fragment), 1));
            crate::serialize::bit_io::lemma_ops_bits_append(
                field_ops(channel as u64, 3),
                field_ops(flag_value(is_fragment), 1),
            );
            assert(ops_bits(Seq::<BitOp>::empty()) =~= Seq::<bool>::empty());
        },
        _ => {
            assert(ops_bits(Seq::<BitOp>::empty()) =~= Seq::<bool>::empty());
        },
    }
}


/// A flag as the number written for it.
pub open spec fn flag_value(b: bool) -> u64 {
    if b {
        1
    } else {
        0
    }
}

/// The index written for each kind of packet.
pub open spec fn packet_type_index(t: PacketType) -> u64 {
    match t {
        PacketType::ConnectionRequest => 0,
        PacketType::ConnectionChallenge { .. } => 1,
        PacketType::ConnectionResponse { .. } => 2,
        PacketType::ConnectionAccept => 3,
        PacketType::ConnectionDeny { .. } => 4,
        PacketType::Disconnect { .. } => 5,
        PacketType::KeepAlive => 6,
        PacketType::Payload { .. } => 7,
    }
}

/// The writes of a packet type's fields after its index.
pub open spec fn packet_type_field_ops(t: PacketType) -> Seq<BitOp> {
    match t {
        PacketType::ConnectionChallenge { server_salt } => field_ops(server_salt, 64),
        PacketType::ConnectionResponse { client_salt } => field_ops(client_salt, 64),
        PacketType::ConnectionDeny { reason } => field_ops(reason as u64, 8),
        PacketType::Disconnect { reason } => field_ops(reason as u64, 8),
        PacketType::Payload { channel, is_fragment } => if fits_bits(channel as u64, 3) {
            field_ops(channel as u64, 3) + field_ops(flag_value(is_fragment), 1)
        } else {
            Seq::empty()
        },
        _ => Seq::empty(),
    }
}

/// A 4-bit index, then the fields; a channel needs to fit in 3 bits.
pub open spec fn packet_type_ops(t: PacketType) -> Seq<BitOp> {
    seq![BitOp::Bits(packet_type_index(t), 4)] + packet_type_field_ops(t)
}

/// A packet type serializes without error unless its channel does not fit in 3 bits.
pub open spec fn packet_type_ok(t: PacketType) -> bool {
    match t {
        PacketType::Payload { channel, .. } => channel < 8,
        _ => true,
    }
}

impl BitSerialize for PacketType {
    open spec fn spec_bit_ops(v: PacketType) -> Seq<BitOp> {
        packet_type_ops(v)
    }

    open spec fn spec_bit_ok(v: PacketType) -> bool {
        packet_type_ok(v)
    }

    proof fn lemma_bit_ops_valid(v: PacketType) {
        let s0 = empty_state();
        lemma_single_op(s0, BitOp::Bits(packet_type_index(v), 4));
        assert(ops_valid(packet_type_field_ops(v)));
        lemma_ops_valid_append(seq![BitOp::Bits(packet_type_index(v), 4)], packet_type_field_ops(v));
    }

    fn bit_serialize(&self, writer: &mut BitBuffer) -> (r: Result<(), BitError>) {
        let ghost s0 = writer@;
        let ghost head = seq![BitOp::Bits(packet_type_index(*self), 4)];
        let ghost rest = packet_type_field_ops(*self);
        proof {
            lemma_ops_one(s0, BitOp::Bits(packet_type_index(*self), 4));
            lemma_then(s0, head, rest);
            assert(pow2(3) == 8 && pow2(8) == 256 && pow2(1) == 2) by {
                vstd::arithmetic::power2::lemma2_to64();
            }
        }
        match self {
            PacketType::ConnectionRequest => {
                writer.write_bits(0, 4)?;
            },
            PacketType::ConnectionChallenge { server_salt } => {
                writer.write_bits(1, 4)?;
                write_field(writer, *server_salt, 64)?;
            },
            PacketType::ConnectionResponse { client_salt } => {
                writer.write_bits(2, 4)?;
                write_field(writer, *client_salt, 64)?;
            },
            PacketType::ConnectionAccept => {
                writer.write_bits(3, 4)?;
            },
            PacketType::ConnectionDeny { reason } => {
                writer.write_bits(4, 4)?;
                write_field(writer, *reason as u64, 8)?;
            },
            PacketType::Disconnect { reason } => {
                writer.write_bits(5, 4)?;
                write_field(writer, *reason as u64, 8)?;
            },
            PacketType::KeepAlive => {
                writer.write_bits(6, 4)?;
            },
            PacketType::Payload { channel, is_fragment } => {
                writer.write_bits(7, 4)?;
                let ghost s1 = writer@;
                let ghost f1 = field_ops(*channel as u64, 3);
                let ghost f2 = field_ops(flag_value(*is_fragment), 1);
                proof {
                    lemma_then(s1, f1, f2);
                    lemma_single_op(s1, BitOp::Bits(*channel as u64, 3));
                    lemma_single_op(s1, BitOp::Bits(flag_value(*is_fragment), 1));
                    assert(s1.after_ops(Seq::<BitOp>::empty()) == s1);
                }
                write_field(writer, *channel as u64, 3)?;
                let flag: u64 = if *is_fragment {
                    1
                } else {
                    0
                };
                write_field(writer, flag, 1)?;
            },
        }
        proof {
            assert(writer@.after_ops(Seq::<BitOp>::empty()) == writer@);
        }
        Ok(())
    }
}



/// Reads a field of `n` bits and builds a value from it.
pub open spec fn read_then<A>(s: BitState, n: nat, f: spec_fn(u64) -> A) -> (Result<A, BitError>, BitState) {
    let (r, t) = s.read_bits_result(n);
    match r {
        Ok(w) => (Ok(f(w)), t),
        Err(e) => (Err(e), t),
    }
}

impl BitDeserialize for PacketType {
    /// A 4-bit index, then the fields of that kind; an index past the last kind is
    /// invalid data.
    open spec fn spec_bit_read(s: BitState) -> (Result<PacketType, BitError>, BitState) {
        let (r, t) = s.read_bits_result(4);
        match r {
            Err(e) => (Err(e), t),
            Ok(i) => if i == 0 {
                (Ok(PacketType::ConnectionRequest), t)
            } else if i == 1 {
                read_then(t, 64, |w: u64| PacketType::ConnectionChallenge { server_salt: w })
            } else if i == 2 {
                read_then(t, 64, |w: u64| PacketType::ConnectionResponse { client_salt: w })
            } else if i == 3 {
                (Ok(PacketType::ConnectionAccept), t)
            } else if i == 4 {
                read_then(t, 8, |w: u64| PacketType::ConnectionDeny { reason: w as u8 })
            } else if i == 5 {
                read_then(t, 8, |w: u64| PacketType::Disconnect { reason: w as u8 })
            } else if i == 6 {
                (Ok(PacketType::KeepAlive), t)
            } else if i == 7 {
                let (r2, u) = t.read_bits_result(3);
                match r2 {
                    Err(e) => (Err(e), u),
                    Ok(c) => read_then(
                        u,
                        1,
                        |f: u64| PacketType::Payload { channel: c as u8, is_fragment: f != 0 },
                    ),
                }
            } else {
                (Err(BitError::InvalidData), t)
            },
        }
    }

    fn bit_deserialize(reader: &mut BitBuffer) -> (r: Result<PacketType, BitError>) {
        let variant_index = reader.read_bits(4)?;
        if variant_index == 0 {
            Ok(PacketType::ConnectionRequest)
        } else if variant_index == 1 {
            let server_salt = reader.read_bits(64)?;
            Ok(PacketType::ConnectionChallenge { server_salt })
        } else if variant_index == 2 {
            let client_salt = reader.read_bits(64)?;
            Ok(PacketType::ConnectionResponse { client_salt })
        } else if variant_index == 3 {
            Ok(PacketType::ConnectionAccept)
        } else if variant_index == 4 {
            let reason = reader.read_bits(8)? as u8;
            Ok(PacketType::ConnectionDeny { reason })
        } else if variant_index == 5 {
            let reason = reader.read_bits(8)? as u8;
            Ok(PacketType::Disconnect { reason })
        } else if variant_index == 6 {
            Ok(PacketType::KeepAlive)
        } else if variant_index == 7 {
            let channel = reader.read_bits(3)? as u8;
            let is_fragment = reader.read_bits(1)? != 0;
            Ok(PacketType::Payload { channel, is_fragment })
        } else {
            Err(BitError::InvalidData)
        }
    }

    proof fn lemma_bit_roundtrip(v: PacketType, s: BitState) {
        let idx = packet_type_index(v);
        let head = seq![BitOp::Bits(idx, 4)];
        let rest = packet_type_field_ops(v);
        let a = value_bits(idx, 4);
        let b = ops_bits(rest);
        lemma_single_op(s, BitOp::Bits(idx, 4));
        crate::serialize::bit_io::lemma_ops_bits_append(head, rest);
        assert(ops_bits(packet_type_ops(v)) == a + b);
        assert(pow2(4) == 16 && pow2(3) == 8 && pow2(8) == 256 && pow2(1) == 2) by {
            vstd::arithmetic::power2::lemma2_to64();
        }
        lemma_split_bits(s, a, b);
        lemma_read_value(s, idx, 4);
        let t = s.reading_at((s.read_pos + 4) as nat);
        match v {
            PacketType::ConnectionChallenge { server_salt } => {
                lemma_single_op(t, BitOp::Bits(server_salt, 64));
                lemma_read_value(t, server_salt, 64);
            },
            PacketType::ConnectionResponse { client_salt } => {
                lemma_single_op(t, BitOp::Bits(client_salt, 64));
                lemma_read_value(t, client_salt, 64);
            },
            PacketType::ConnectionDeny { reason } => {
                lemma_single_op(t, BitOp::Bits(reason as u64, 8));
                lemma_read_value(t, reason as u64, 8);
            },
            PacketType::Disconnect { reason } => {
                lemma_single_op(t, BitOp::Bits(reason as u64, 8));
                lemma_read_value(t, reason as u64, 8);
            },
            PacketType::Payload { channel, is_fragment } => {
                let f1 = field_ops(channel as u64, 3);
                let f2 = field_ops(flag_value(is_fragment), 1);
                lemma_single_op(t, BitOp::Bits(channel as u64, 3));
                lemma_single_op(t, BitOp::Bits(flag_value(is_fragment), 1));
                crate::serialize::bit_io::lemma_ops_bits_append(f1, f2);
                lemma_split_bits(t, value_bits(channel as u64, 3), value_bits(flag_value(is_fragment), 1));
                lemma_read_value(t, channel as u64, 3);
                let u = t.reading_at((t.read_pos + 3) as nat);
                lemma_read_value(u, flag_value(is_fragment), 1);
            },
            _ => {
                assert(b =~= Seq::<bool>::empty());
                assert(s.reading_at(t.read_pos) == t);
            },
        }
    }
}


// ---------------------------------------------------------------------------
// Packets.
// ---------------------------------------------------------------------------

/// A header, a packet type and a payload.
#[derive(Debug, Clone)]
pub struct Packet {
    pub header: PacketHeader,
    pub packet_type: PacketType,
    pub payload: Vec<u8>,
}

impl View for Packet {
    type V = (PacketHeader, PacketType, Seq<u8>);

    /// The header, the type and the payload's bytes.
    open spec fn view(&self) -> (PacketHeader, PacketType, Seq<u8>) {
        (self.header, self.packet_type, self.payload@)
    }
}

/// The bits of a packet's header and type, before padding.
pub open spec fn packet_header_bits(h: PacketHeader, t: PacketType) -> Seq<bool> {
    ops_bits(header_ops(h)) + ops_bits(packet_type_ops(t))
}

/// The bytes that a packet's header and type take, once padded to a byte boundary.
pub open spec fn packet_header_len(h: PacketHeader, t: PacketType) -> nat {
    bytes_for(packet_header_bits(h, t).len())
}

/// `bytes` is the encoding of a packet: the bits of its header and type, zero bits up to
/// the next byte boundary, then the payload.
pub open spec fn is_packet_encoding(
    bytes: Seq<u8>,
    h: PacketHeader,
    t: PacketType,
    payload: Seq<u8>,
) -> bool {
    let k = packet_header_len(h, t);
    let hb = packet_header_bits(h, t);
    &&& bytes.len() == k + payload.len()
    &&& bits_of(bytes.take(k as int)) == hb + zero_bits((8 * k - hb.len()) as nat)
    &&& bytes.skip(k as int) == payload
}

/// What decoding `data` as a packet gives: the header, the type and the payload, which
/// is whatever follows the byte where the type ends.
pub open spec fn spec_packet_read(data: Seq<u8>) -> Result<
    (PacketHeader, PacketType, Seq<u8>),
    BitError,
> {
    if data.len() == 0 {
        Err(BitError::InvalidData)
    } else {
        let (r1, t1) = PacketHeader::spec_bit_read(reader_state(bits_of(data)));
        match r1 {
            Err(e) => Err(e),
            Ok(h) => {
                let (r2, t2) = PacketType::spec_bit_read(t1);
                match r2 {
                    Err(e) => Err(e),
                    Ok(t) => {
                        let k = bytes_for(t2.read_pos);
                        Ok((h, t, if k < data.len() { data.skip(k as int) } else { Seq::empty() }))
                    },
                }
            },
        }
    }
}

/// At most one byte sequence encodes a packet.
pub proof fn lemma_packet_encoding_unique(
    a: Seq<u8>,
    b: Seq<u8>,
    h: PacketHeader,
    t: PacketType,
    payload: Seq<u8>,
)
    requires
        is_packet_encoding(a, h, t, payload),
        is_packet_encoding(b, h, t, payload),
    ensures
        a == b,
{
    let k = packet_header_len(h, t) as int;
    crate::serialize::bit_io::lemma_bits_of_injective(a.take(k), b.take(k));
    assert(a =~= a.take(k) + a.skip(k));
    assert(b =~= b.take(k) + b.skip(k));
}

impl Packet {
    /// A packet with the given header and type and no payload.
    pub fn new(header: PacketHeader, packet_type: PacketType) -> (r: Self)
        ensures
            r.header == header,
            r.packet_type == packet_type,
            r.payload@ == Seq::<u8>::empty(),
    {
        Self { header, packet_type, payload: Vec::new() }
    }

    /// The packet with its payload replaced.
    pub fn with_payload(self, payload: Vec<u8>) -> (r: Self)
        ensures
            r.header == self.header,
            r.packet_type == self.packet_type,
            r.payload@ == payload@,
    {
        let mut this = self;
        this.payload = payload;
        this
    }

    /// The packet's bytes: its header and type, padded with zero bits to a byte boundary,
    /// then the payload. A channel that does not fit in 3 bits is invalid data.
    pub fn serialize(&self) -> (r: Result<Vec<u8>, BitError>)
        ensures
            r is Ok <==> packet_type_ok(self.packet_type),
            r matches Ok(bytes) ==> is_packet_encoding(
                bytes@,
                self.header,
                self.packet_type,
                self.payload@,
            ),
            r matches Err(e) ==> e == BitError::InvalidData,
    {
        let mut buffer = BitBuffer::new();
        let ghost s0 = buffer@;
        let ghost hops = header_ops(self.header);
        let ghost tops = packet_type_ops(self.packet_type);
        let ghost hb = packet_header_bits(self.header, self.packet_type);
        proof {
            lemma_then(s0, hops, tops);
            PacketHeader::lemma_bit_ops_valid(self.header);
            PacketType::lemma_bit_ops_valid(self.packet_type);
            crate::serialize::lemma_ops_valid_append(hops, tops);
            crate::serialize::bit_io::lemma_compact_after_ops(s0, hops + tops);
            assert(s0.written() =~= Seq::<bool>::empty());
            assert(s0.written() + ops_bits(hops + tops) =~= hb);
            lemma_header_bits(self.header);
            lemma_packet_type_bits_len(self.packet_type);
        }
        self.header.bit_serialize(&mut buffer)?;
        self.packet_type.bit_serialize(&mut buffer)?;
        proof {
            assert(buffer@ == s0.after_ops(hops + tops));
            assert(hb + zero_bits(0) =~= hb);
        }
        while BitWrite::bit_pos(&buffer) % 8 != 0
            invariant
                hb == packet_header_bits(self.header, self.packet_type),
                buffer@.wf(),
                buffer@.is_compact(),
                buffer@.read_pos == 0,
                hb.len() <= buffer@.write_pos <= 8 * bytes_for(hb.len()),
                hb.len() + 200 <= usize::MAX,
                buffer@.written() == hb + zero_bits((buffer@.write_pos - hb.len()) as nat),
            decreases 8 * bytes_for(hb.len()) - buffer@.write_pos,
        {
            proof {
                crate::serialize::bit_io::lemma_compact_after_op(buffer@, BitOp::Bit(false));
                assert(hb + zero_bits((buffer@.write_pos - hb.len()) as nat) + seq![false]
                    =~= hb + zero_bits((buffer@.write_pos + 1 - hb.len()) as nat));
            }
            buffer.write_bit(false)?;
        }
        let ghost padded = buffer@;
        proof {
            crate::serialize::bit_io::lemma_compact_pad(padded);
            assert(padded.write_pos == 8 * bytes_for(hb.len()));
            assert(padded.bits.take(padded.write_pos as int) =~= padded.bits);
        }
        let header_bytes = buffer.into_bytes(true)?;
        let mut result = header_bytes;
        let ghost hbytes = result@;
        result.extend_from_slice(self.payload.as_slice());
        proof {
            let k = packet_header_len(self.header, self.packet_type) as int;
            assert(hbytes.len() == k) by {
                assert(bits_of(hbytes).len() == 8 * hbytes.len());
            }
            assert(result@ =~= hbytes + self.payload@);
            assert(result@.take(k) =~= hbytes);
            assert(result@.skip(k) =~= self.payload@);
        }
        Ok(result)
    }

    /// Decodes a packet: the header, the type, then, after skipping to the next byte
    /// boundary, the rest as the payload. Empty data is invalid.
    pub fn deserialize(data: &[u8]) -> (r: Result<Packet, BitError>)
        requires
            8 * data@.len() + 64 <= usize::MAX,
        ensures
            r is Ok <==> spec_packet_read(data@) is Ok,
            r matches Ok(p) ==> spec_packet_read(data@) == Ok::<
                (PacketHeader, PacketType, Seq<u8>),
                BitError,
            >((p.header, p.packet_type, p.payload@)),
            r matches Err(e) ==> spec_packet_read(data@) == Err::<
                (PacketHeader, PacketType, Seq<u8>),
                BitError,
            >(e),
    {
        if data.len() == 0 {
            return Err(BitError::InvalidData);
        }
        let mut buffer = BitBuffer::from_bytes(vstd::slice::slice_to_vec(data));
        let header = PacketHeader::bit_deserialize(&mut buffer)?;
        let packet_type = PacketType::bit_deserialize(&mut buffer)?;
        let ghost t2 = buffer@;
        while BitRead::bit_pos(&buffer) % 8 != 0
            invariant
                buffer@.readable(),
                buffer@.bits == t2.bits,
                t2.bits.len() % 8 == 0,
                t2.read_pos <= buffer@.read_pos <= 8 * bytes_for(t2.read_pos),
                8 * bytes_for(t2.read_pos) <= t2.bits.len(),
            decreases 8 * bytes_for(t2.read_pos) - buffer@.read_pos,
        {
            buffer.read_bit()?;
        }
        let header_size = BitRead::bit_pos(&buffer) / 8;
        proof {
            assert(header_size == bytes_for(t2.read_pos));
        }
        let payload = if header_size < data.len() {
            vstd::slice::slice_to_vec(vstd::slice::slice_subrange(data, header_size, data.len()))
        } else {
            Vec::new()
        };
        proof {
            if header_size < data.len() {
                assert(payload@ =~= data@.skip(header_size as int));
            }
        }
        Ok(Packet { header, packet_type, payload })
    }
}

/// Every payload packet whose channel fits in 3 bits (channels 0 to 7) can be written,
/// and its type is written as the index 7 in 4 bits, the channel in 3 bits, then the
/// fragment flag in 1 bit.
pub proof fn lemma_payload_type_encoding(channel: u8, is_fragment: bool)
    requires
        channel < 8,
    ensures
        packet_type_ok(PacketType::Payload { channel, is_fragment }),
        ops_bits(packet_type_ops(PacketType::Payload { channel, is_fragment })) == value_bits(7, 4)
            + value_bits(channel as u64, 3) + value_bits(if is_fragment { 1 } else { 0 }, 1),
{
    assert(pow2(3) == 8 && pow2(1) == 2) by {
        vstd::arithmetic::power2::lemma2_to64();
    }
    let f: u64 = if is_fragment { 1 } else { 0 };
    let a = seq![BitOp::Bits(7, 4)];
    let b = seq![BitOp::Bits(channel as u64, 3)];
    let c = seq![BitOp::Bits(f, 1)];
    assert(packet_type_ops(PacketType::Payload { channel, is_fragment }) == a + (b + c));
    lemma_single_op(empty_state(), BitOp::Bits(7, 4));
    lemma_single_op(empty_state(), BitOp::Bits(channel as u64, 3));
    lemma_single_op(empty_state(), BitOp::Bits(f, 1));
    crate::serialize::bit_io::lemma_ops_bits_append(b, c);
    crate::serialize::bit_io::lemma_ops_bits_append(a, b + c);
    assert(value_bits(7, 4) + (value_bits(channel as u64, 3) + value_bits(f, 1)) =~= value_bits(7, 4)
        + value_bits(channel as u64, 3) + value_bits(f, 1));
}

/// Decoding the encoding of a packet gives the packet back.
pub proof fn lemma_packet_roundtrip(
    bytes: Seq<u8>,
    h: PacketHeader,
    t: PacketType,
    payload: Seq<u8>,
)
    requires
        packet_type_ok(t),
        is_packet_encoding(bytes, h, t, payload),
        8 * bytes.len() + 64 <= usize::MAX,
    ensures
        spec_packet_read(bytes) == Ok::<(PacketHeader, PacketType, Seq<u8>), BitError>(
            (h, t, payload),
        ),
{
    let k = packet_header_len(h, t) as int;
    let hb = packet_header_bits(h, t);
    let a = ops_bits(header_ops(h));
    let b = ops_bits(packet_type_ops(t));
    crate::serialize::bit_io::lemma_bits_of_append(bytes.take(k), bytes.skip(k));
    assert(bytes =~= bytes.take(k) + bytes.skip(k));
    let all = bits_of(bytes);
    let s = reader_state(all);
    assert(all.subrange(0, (a.len() + b.len()) as int) =~= a + b) by {
        assert forall|q: int| 0 <= q < a.len() + b.len() implies all.subrange(
            0,
            (a.len() + b.len()) as int,
        )[q] == (a + b)[q] by {
            assert(all[q] == bits_of(bytes.take(k))[q]);
            assert(bits_of(bytes.take(k))[q] == (hb + zero_bits((8 * k - hb.len()) as nat))[q]);
        }
    }
    lemma_header_bits(h);
    lemma_packet_type_bits_len(t);
    assert(bytes.len() > 0) by {
        assert(bits_of(bytes.take(k)).len() == 8 * k);
    }
    lemma_split_bits(s, a, b);
    PacketHeader::lemma_bit_roundtrip(h, s);
    let t1 = s.reading_at(a.len());
    PacketType::lemma_bit_roundtrip(t, t1);
    let t2 = t1.reading_at(t1.read_pos + b.len());
    assert(PacketHeader::spec_bit_read(s) == (Ok::<PacketHeader, BitError>(h), t1));
    assert(PacketType::spec_bit_read(t1) == (Ok::<PacketType, BitError>(t), t2));
    assert(t2.read_pos == hb.len());
    assert(bytes_for(t2.read_pos) == k);
    if k >= bytes.len() {
        assert(payload =~= Seq::<u8>::empty());
    }
}

// ---------------------------------------------------------------------------
// Sequence numbers.
// ---------------------------------------------------------------------------


/// The forward distance from `s2` to `s1` on the 16-bit circle, in `0..65536`.
pub open spec fn forward_distance(s1: u16, s2: u16) -> int {
    (s1 - s2) % 65536
}

/// `s1` is ahead of `s2`: it lies in the half of the circle that follows `s2`.
/// Exactly half-way round, the numerically larger one counts as ahead.
pub open spec fn spec_sequence_greater_than(s1: u16, s2: u16) -> bool {
    let d = forward_distance(s1, s2);
    (0 < d < 32768) || (d == 32768 && s1 > s2)
}

/// The signed wrapping distance from `s2` to `s1`: congruent to `s1 - s2` modulo 65536,
/// within `-32768..=32768`, with the sign of `s1 - s2` at the two extremes.
pub open spec fn is_wrapped_difference(s1: u16, s2: u16, r: int) -> bool {
    &&& (r - (s1 - s2)) % 65536 == 0
    &&& -32768 <= r <= 32768
    &&& r == 32768 ==> s1 > s2
    &&& r == -32768 ==> s1 < s2
}

/// The signed wrapping distance from `s2` to `s1`, as [`sequence_diff`] computes it.
pub open spec fn spec_sequence_diff(s1: u16, s2: u16) -> int {
    let d = s1 - s2;
    if d > 32768 {
        d - 65536
    } else if d < -32768 {
        d + 65536
    } else {
        d
    }
}

/// Compares two sequence numbers, accounting for wraparound.
pub fn sequence_greater_than(s1: u16, s2: u16) -> (r: bool)
    ensures
        r == spec_sequence_greater_than(s1, s2),
{
    ((s1 > s2) && (s1 - s2 <= 32768)) || ((s1 < s2) && (s2 - s1 > 32768))
}

/// The signed difference between two sequence numbers, accounting for wraparound.
pub fn sequence_diff(s1: u16, s2: u16) -> (r: i32)
    ensures
        is_wrapped_difference(s1, s2, r as int),
        r == spec_sequence_diff(s1, s2),
{
    let diff = s1 as i32 - s2 as i32;
    if diff > 32768 {
        diff - 65536
    } else if diff < -32768 {
        diff + 65536
    } else {
        diff
    }
}

/// The wrapped difference is unique: at most one integer meets its description.
pub proof fn lemma_wrapped_difference_unique(s1: u16, s2: u16, r1: int, r2: int)
    requires
        is_wrapped_difference(s1, s2, r1),
        is_wrapped_difference(s1, s2, r2),
    ensures
        r1 == r2,
{
}

/// Of two distinct sequence numbers exactly one is ahead of the other, and none is
/// ahead of itself.
pub proof fn lemma_greater_than_total_order(s1: u16, s2: u16)
    ensures
        !(spec_sequence_greater_than(s1, s2) && spec_sequence_greater_than(s2, s1)),
        s1 != s2 ==> (spec_sequence_greater_than(s1, s2) || spec_sequence_greater_than(s2, s1)),
        !spec_sequence_greater_than(s1, s1),
{
}

/// The difference is positive exactly when the first number is ahead, it changes sign
/// when the arguments swap, and adding it to the second number lands on the first.
pub proof fn lemma_difference_agrees_with_order(s1: u16, s2: u16, d12: int, d21: int)
    requires
        is_wrapped_difference(s1, s2, d12),
        is_wrapped_difference(s2, s1, d21),
    ensures
        d12 > 0 <==> spec_sequence_greater_than(s1, s2),
        d12 == -d21,
        (s2 + d12) % 65536 == s1,
{
}

} // verus!
