//! Bit-packed serialization.
pub mod bit_io;
pub mod byte_aligned;

use vstd::prelude::*;
use vstd::arithmetic::power2::pow2;
use self::bit_io::{
    BitBuffer, BitError, BitOp, BitRead, BitState, BitWrite, bits_to_nat, bytes_for, lemma_after_ops,
    lemma_compact_after_ops, lemma_compact_pad, zero_bits,
    lemma_after_ops_append, lemma_bits_to_nat_of_value, lemma_ops_bits_append, op_bits, ops_bits,
    ops_valid, value_bits,
};

verus! {

/// A value that can be written to a [`BitBuffer`].
///
/// What serializing writes is described over the value's deep view: the run of writes
/// that it performs, in order, and whether it completes.
pub trait BitSerialize: DeepView {
    /// The writes that serializing `v` performs, in order. When serializing fails, the
    /// writes made before the failure.
    spec fn spec_bit_ops(v: Self::V) -> Seq<BitOp>;

    /// Serializing `v` completes without error.
    spec fn spec_bit_ok(v: Self::V) -> bool;

    /// Every write that serializing performs is one that the buffer accepts.
    proof fn lemma_bit_ops_valid(v: Self::V)
        ensures
            ops_valid(Self::spec_bit_ops(v)),
    ;

    /// Writes the value.
    fn bit_serialize(&self, writer: &mut BitBuffer) -> (r: Result<(), BitError>)
        requires
            old(writer).spec_write_room(ops_bits(Self::spec_bit_ops(self.deep_view())).len()),
        ensures
            final(writer)@ == old(writer)@.after_ops(Self::spec_bit_ops(self.deep_view())),
            r is Ok <==> Self::spec_bit_ok(self.deep_view()),
            r matches Err(e) ==> e == BitError::InvalidData,
    ;
}

/// A value that can be read from a [`BitBuffer`].
pub trait BitDeserialize: Sized + BitSerialize {
    /// What deserializing from state `s` returns, as a deep view, and the state after it.
    spec fn spec_bit_read(s: BitState) -> (Result<Self::V, BitError>, BitState);

    /// Reads a value.
    fn bit_deserialize(reader: &mut BitBuffer) -> (r: Result<Self, BitError>)
        requires
            old(reader)@.readable(),
        ensures
            final(reader)@ == Self::spec_bit_read(old(reader)@).1,
            r matches Ok(v) ==> Self::spec_bit_read(old(reader)@).0 == Ok::<Self::V, BitError>(
                v.deep_view(),
            ),
            r matches Err(e) ==> Self::spec_bit_read(old(reader)@).0 == Err::<Self::V, BitError>(
                e,
            ),
            final(reader)@.readable(),
            final(reader)@.bits == old(reader)@.bits,
    ;

    /// Reading back what serializing wrote gives the value back: wherever the bits of a
    /// value that serializes without error stand, reading from their start returns the
    /// value and stops right after them.
    proof fn lemma_bit_roundtrip(v: Self::V, s: BitState)
        requires
            Self::spec_bit_ok(v),
            s.readable(),
            s.read_pos + ops_bits(Self::spec_bit_ops(v)).len() <= s.bits.len(),
            s.bits.subrange(
                s.read_pos as int,
                (s.read_pos + ops_bits(Self::spec_bit_ops(v)).len()) as int,
            ) == ops_bits(Self::spec_bit_ops(v)),
        ensures
            Self::spec_bit_read(s) == (
                Ok::<Self::V, BitError>(v),
                s.reading_at(s.read_pos + ops_bits(Self::spec_bit_ops(v)).len()),
            ),
    ;
}

/// A single write.
pub proof fn lemma_single_op(s: BitState, op: BitOp)
    ensures
        s.after_ops(seq![op]) == s.after_op(op),
        ops_bits(seq![op]) == op_bits(op),
        ops_valid(seq![op]) <==> match op {
            BitOp::Bit(_) => true,
            BitOp::Bits(_, n) => n <= 64,
        },
{
    assert(seq![op].drop_first() =~= Seq::<BitOp>::empty());
    let t = s.after_op(op);
    assert(t.after_ops(Seq::<BitOp>::empty()) == t);
    assert(ops_bits(seq![op]) =~= op_bits(op) + ops_bits(Seq::<BitOp>::empty()));
    assert(seq![op][0] == op);
}


impl BitSerialize for u8 {
    /// The low 8 bits of the value.
    open spec fn spec_bit_ops(v: u8) -> Seq<BitOp> {
        seq![BitOp::Bits(v as u64, 8)]
    }

    open spec fn spec_bit_ok(v: u8) -> bool {
        true
    }

    proof fn lemma_bit_ops_valid(v: u8) {
        lemma_single_op(BitState { bits: Seq::empty(), write_pos: 0, read_pos: 0, unpadded: 0 }, BitOp::Bits(v as u64, 8));
    }

    fn bit_serialize(&self, writer: &mut BitBuffer) -> (r: Result<(), BitError>) {
        proof {
            lemma_single_op(writer@, BitOp::Bits(*self as u64, 8));
        }
        writer.write_bits(*self as u64, 8)?;
        Ok(())
    }
}

impl BitDeserialize for u8 {
    /// 8 bits, taken as the low bits of the value.
    open spec fn spec_bit_read(s: BitState) -> (Result<u8, BitError>, BitState) {
        let (r, t) = s.read_bits_result(8);
        (
            match r {
                Ok(w) => Ok(w as u8),
                Err(e) => Err(e),
            },
            t,
        )
    }

    fn bit_deserialize(reader: &mut BitBuffer) -> (r: Result<u8, BitError>) {
        let value = reader.read_bits(8)?;
        Ok(value as u8)
    }

    proof fn lemma_bit_roundtrip(v: u8, s: BitState) {
        lemma_single_op(s, BitOp::Bits(v as u64, 8));
        lemma_bits_to_nat_of_value(v as u64, 8);
        assert(pow2(8) == 256) by {
            vstd::arithmetic::power2::lemma2_to64();
        }
        assert((((v as u64) % 256u64) as u8) == v) by (bit_vector);
    }
}

impl BitSerialize for i8 {
    /// The low 8 bits of the value.
    open spec fn spec_bit_ops(v: i8) -> Seq<BitOp> {
        seq![BitOp::Bits(v as u64, 8)]
    }

    open spec fn spec_bit_ok(v: i8) -> bool {
        true
    }

    proof fn lemma_bit_ops_valid(v: i8) {
        lemma_single_op(BitState { bits: Seq::empty(), write_pos: 0, read_pos: 0, unpadded: 0 }, BitOp::Bits(v as u64, 8));
    }

    fn bit_serialize(&self, writer: &mut BitBuffer) -> (r: Result<(), BitError>) {
        proof {
            lemma_single_op(writer@, BitOp::Bits(*self as u64, 8));
        }
        writer.write_bits(*self as u64, 8)?;
        Ok(())
    }
}

impl BitDeserialize for i8 {
    /// 8 bits, taken as the low bits of the value.
    open spec fn spec_bit_read(s: BitState) -> (Result<i8, BitError>, BitState) {
        let (r, t) = s.read_bits_result(8);
        (
            match r {
                Ok(w) => Ok(w as i8),
                Err(e) => Err(e),
            },
            t,
        )
    }

    fn bit_deserialize(reader: &mut BitBuffer) -> (r: Result<i8, BitError>) {
        let value = reader.read_bits(8)?;
        Ok(value as i8)
    }

    proof fn lemma_bit_roundtrip(v: i8, s: BitState) {
        lemma_single_op(s, BitOp::Bits(v as u64, 8));
        lemma_bits_to_nat_of_value(v as u64, 8);
        assert(pow2(8) == 256) by {
            vstd::arithmetic::power2::lemma2_to64();
        }
        assert((((v as u64) % 256u64) as i8) == v) by (bit_vector);
    }
}

impl BitSerialize for u16 {
    /// The low 16 bits of the value.
    open spec fn spec_bit_ops(v: u16) -> Seq<BitOp> {
        seq![BitOp::Bits(v as u64, 16)]
    }

    open spec fn spec_bit_ok(v: u16) -> bool {
        true
    }

    proof fn lemma_bit_ops_valid(v: u16) {
        lemma_single_op(BitState { bits: Seq::empty(), write_pos: 0, read_pos: 0, unpadded: 0 }, BitOp::Bits(v as u64, 16));
    }

    fn bit_serialize(&self, writer: &mut BitBuffer) -> (r: Result<(), BitError>) {
        proof {
            lemma_single_op(writer@, BitOp::Bits(*self as u64, 16));
        }
        writer.write_bits(*self as u64, 16)?;
        Ok(())
    }
}

impl BitDeserialize for u16 {
    /// 16 bits, taken as the low bits of the value.
    open spec fn spec_bit_read(s: BitState) -> (Result<u16, BitError>, BitState) {
        let (r, t) = s.read_bits_result(16);
        (
            match r {
                Ok(w) => Ok(w as u16),
                Err(e) => Err(e),
            },
            t,
        )
    }

    fn bit_deserialize(reader: &mut BitBuffer) -> (r: Result<u16, BitError>) {
        let value = reader.read_bits(16)?;
        Ok(value as u16)
    }

    proof fn lemma_bit_roundtrip(v: u16, s: BitState) {
        lemma_single_op(s, BitOp::Bits(v as u64, 16));
        lemma_bits_to_nat_of_value(v as u64, 16);
        assert(pow2(16) == 65536) by {
            vstd::arithmetic::power2::lemma2_to64();
        }
        assert((((v as u64) % 65536u64) as u16) == v) by (bit_vector);
    }
}

impl BitSerialize for i16 {
    /// The low 16 bits of the value.
    open spec fn spec_bit_ops(v: i16) -> Seq<BitOp> {
        seq![BitOp::Bits(v as u64, 16)]
    }

    open spec fn spec_bit_ok(v: i16) -> bool {
        true
    }

    proof fn lemma_bit_ops_valid(v: i16) {
        lemma_single_op(BitState { bits: Seq::empty(), write_pos: 0, read_pos: 0, unpadded: 0 }, BitOp::Bits(v as u64, 16));
    }

    fn bit_serialize(&self, writer: &mut BitBuffer) -> (r: Result<(), BitError>) {
        proof {
            lemma_single_op(writer@, BitOp::Bits(*self as u64, 16));
        }
        writer.write_bits(*self as u64, 16)?;
        Ok(())
    }
}

impl BitDeserialize for i16 {
    /// 16 bits, taken as the low bits of the value.
    open spec fn spec_bit_read(s: BitState) -> (Result<i16, BitError>, BitState) {
        let (r, t) = s.read_bits_result(16);
        (
            match r {
                Ok(w) => Ok(w as i16),
                Err(e) => Err(e),
            },
            t,
        )
    }

    fn bit_deserialize(reader: &mut BitBuffer) -> (r: Result<i16, BitError>) {
        let value = reader.read_bits(16)?;
        Ok(value as i16)
    }

    proof fn lemma_bit_roundtrip(v: i16, s: BitState) {
        lemma_single_op(s, BitOp::Bits(v as u64, 16));
        lemma_bits_to_nat_of_value(v as u64, 16);
        assert(pow2(16) == 65536) by {
            vstd::arithmetic::power2::lemma2_to64();
        }
        assert((((v as u64) % 65536u64) as i16) == v) by (bit_vector);
    }
}

impl BitSerialize for u32 {
    /// The low 32 bits of the value.
    open spec fn spec_bit_ops(v: u32) -> Seq<BitOp> {
        seq![BitOp::Bits(v as u64, 32)]
    }

    open spec fn spec_bit_ok(v: u32) -> bool {
        true
    }

    proof fn lemma_bit_ops_valid(v: u32) {
        lemma_single_op(BitState { bits: Seq::empty(), write_pos: 0, read_pos: 0, unpadded: 0 }, BitOp::Bits(v as u64, 32));
    }

    fn bit_serialize(&self, writer: &mut BitBuffer) -> (r: Result<(), BitError>) {
        proof {
            lemma_single_op(writer@, BitOp::Bits(*self as u64, 32));
        }
        writer.write_bits(*self as u64, 32)?;
        Ok(())
    }
}

impl BitDeserialize for u32 {
    /// 32 bits, taken as the low bits of the value.
    open spec fn spec_bit_read(s: BitState) -> (Result<u32, BitError>, BitState) {
        let (r, t) = s.read_bits_result(32);
        (
            match r {
                Ok(w) => Ok(w as u32),
                Err(e) => Err(e),
            },
            t,
        )
    }

    fn bit_deserialize(reader: &mut BitBuffer) -> (r: Result<u32, BitError>) {
        let value = reader.read_bits(32)?;
        Ok(value as u32)
    }

    proof fn lemma_bit_roundtrip(v: u32, s: BitState) {
        lemma_single_op(s, BitOp::Bits(v as u64, 32));
        lemma_bits_to_nat_of_value(v as u64, 32);
        assert(pow2(32) == 4294967296) by {
            vstd::arithmetic::power2::lemma2_to64();
        }
        assert((((v as u64) % 4294967296u64) as u32) == v) by (bit_vector);
    }
}

impl BitSerialize for i32 {
    /// The low 32 bits of the value.
    open spec fn spec_bit_ops(v: i32) -> Seq<BitOp> {
        seq![BitOp::Bits(v as u64, 32)]
    }

    open spec fn spec_bit_ok(v: i32) -> bool {
        true
    }

    proof fn lemma_bit_ops_valid(v: i32) {
        lemma_single_op(BitState { bits: Seq::empty(), write_pos: 0, read_pos: 0, unpadded: 0 }, BitOp::Bits(v as u64, 32));
    }

    fn bit_serialize(&self, writer: &mut BitBuffer) -> (r: Result<(), BitError>) {
        proof {
            lemma_single_op(writer@, BitOp::Bits(*self as u64, 32));
        }
        writer.write_bits(*self as u64, 32)?;
        Ok(())
    }
}

impl BitDeserialize for i32 {
    /// 32 bits, taken as the low bits of the value.
    open spec fn spec_bit_read(s: BitState) -> (Result<i32, BitError>, BitState) {
        let (r, t) = s.read_bits_result(32);
        (
            match r {
                Ok(w) => Ok(w as i32),
                Err(e) => Err(e),
            },
            t,
        )
    }

    fn bit_deserialize(reader: &mut BitBuffer) -> (r: Result<i32, BitError>) {
        let value = reader.read_bits(32)?;
        Ok(value as i32)
    }

    proof fn lemma_bit_roundtrip(v: i32, s: BitState) {
        lemma_single_op(s, BitOp::Bits(v as u64, 32));
        lemma_bits_to_nat_of_value(v as u64, 32);
        assert(pow2(32) == 4294967296) by {
            vstd::arithmetic::power2::lemma2_to64();
        }
        assert((((v as u64) % 4294967296u64) as i32) == v) by (bit_vector);
    }
}

impl BitSerialize for u64 {
    /// The low 64 bits of the value.
    open spec fn spec_bit_ops(v: u64) -> Seq<BitOp> {
        seq![BitOp::Bits(v as u64, 64)]
    }

    open spec fn spec_bit_ok(v: u64) -> bool {
        true
    }

    proof fn lemma_bit_ops_valid(v: u64) {
        lemma_single_op(BitState { bits: Seq::empty(), write_pos: 0, read_pos: 0, unpadded: 0 }, BitOp::Bits(v as u64, 64));
    }

    fn bit_serialize(&self, writer: &mut BitBuffer) -> (r: Result<(), BitError>) {
        proof {
            lemma_single_op(writer@, BitOp::Bits(*self as u64, 64));
        }
        writer.write_bits(*self as u64, 64)?;
        Ok(())
    }
}

impl BitDeserialize for u64 {
    /// 64 bits, taken as the low bits of the value.
    open spec fn spec_bit_read(s: BitState) -> (Result<u64, BitError>, BitState) {
        let (r, t) = s.read_bits_result(64);
        (
            match r {
                Ok(w) => Ok(w as u64),
                Err(e) => Err(e),
            },
            t,
        )
    }

    fn bit_deserialize(reader: &mut BitBuffer) -> (r: Result<u64, BitError>) {
        let value = reader.read_bits(64)?;
        Ok(value as u64)
    }

    proof fn lemma_bit_roundtrip(v: u64, s: BitState) {
        lemma_single_op(s, BitOp::Bits(v as u64, 64));
        lemma_bits_to_nat_of_value(v as u64, 64);
        vstd::arithmetic::power2::lemma2_to64_rest();
        assert((v as u64) as nat % pow2(64) == (v as u64) as nat);

    }
}

impl BitSerialize for i64 {
    /// The low 64 bits of the value.
    open spec fn spec_bit_ops(v: i64) -> Seq<BitOp> {
        seq![BitOp::Bits(v as u64, 64)]
    }

    open spec fn spec_bit_ok(v: i64) -> bool {
        true
    }

    proof fn lemma_bit_ops_valid(v: i64) {
        lemma_single_op(BitState { bits: Seq::empty(), write_pos: 0, read_pos: 0, unpadded: 0 }, BitOp::Bits(v as u64, 64));
    }

    fn bit_serialize(&self, writer: &mut BitBuffer) -> (r: Result<(), BitError>) {
        proof {
            lemma_single_op(writer@, BitOp::Bits(*self as u64, 64));
        }
        writer.write_bits(*self as u64, 64)?;
        Ok(())
    }
}

impl BitDeserialize for i64 {
    /// 64 bits, taken as the low bits of the value.
    open spec fn spec_bit_read(s: BitState) -> (Result<i64, BitError>, BitState) {
        let (r, t) = s.read_bits_result(64);
        (
            match r {
                Ok(w) => Ok(w as i64),
                Err(e) => Err(e),
            },
            t,
        )
    }

    fn bit_deserialize(reader: &mut BitBuffer) -> (r: Result<i64, BitError>) {
        let value = reader.read_bits(64)?;
        Ok(value as i64)
    }

    proof fn lemma_bit_roundtrip(v: i64, s: BitState) {
        lemma_single_op(s, BitOp::Bits(v as u64, 64));
        lemma_bits_to_nat_of_value(v as u64, 64);
        vstd::arithmetic::power2::lemma2_to64_rest();
        assert((v as u64) as nat % pow2(64) == (v as u64) as nat);
        assert(((v as u64) as i64) == v) by (bit_vector);
    }
}

impl BitSerialize for bool {
    /// One bit.
    open spec fn spec_bit_ops(v: bool) -> Seq<BitOp> {
        seq![BitOp::Bit(v)]
    }

    open spec fn spec_bit_ok(v: bool) -> bool {
        true
    }

    proof fn lemma_bit_ops_valid(v: bool) {
        lemma_single_op(
            BitState { bits: Seq::empty(), write_pos: 0, read_pos: 0, unpadded: 0 },
            BitOp::Bit(v),
        );
    }

    fn bit_serialize(&self, writer: &mut BitBuffer) -> (r: Result<(), BitError>) {
        proof {
            lemma_single_op(writer@, BitOp::Bit(*self));
        }
        writer.write_bit(*self)?;
        Ok(())
    }
}

impl BitDeserialize for bool {
    /// One bit.
    open spec fn spec_bit_read(s: BitState) -> (Result<bool, BitError>, BitState) {
        s.read_bit_result()
    }

    fn bit_deserialize(reader: &mut BitBuffer) -> (r: Result<bool, BitError>) {
        let value = reader.read_bit()?;
        Ok(value)
    }

    proof fn lemma_bit_roundtrip(v: bool, s: BitState) {
        lemma_single_op(s, BitOp::Bit(v));
        assert(s.bits.subrange(s.read_pos as int, s.read_pos + 1int)[0] == s.bits[s.read_pos as int]);
    }
}

// ---------------------------------------------------------------------------
// Runs of values.
// ---------------------------------------------------------------------------

/// Every value of a run serializes without error.
pub open spec fn all_ok<T: BitSerialize>(items: Seq<T::V>) -> bool {
    forall|i: int| 0 <= i < items.len() ==> #[trigger] T::spec_bit_ok(items[i])
}

/// The writes of serializing a run of values one after another, stopping after the
/// first value that fails.
pub open spec fn seq_ops<T: BitSerialize>(items: Seq<T::V>) -> Seq<BitOp>
    decreases items.len(),
{
    if items.len() == 0 {
        Seq::empty()
    } else if all_ok::<T>(items.drop_last()) {
        seq_ops::<T>(items.drop_last()) + T::spec_bit_ops(items.last())
    } else {
        seq_ops::<T>(items.drop_last())
    }
}

/// What reading `k` values one after another returns, and the state after it.
pub open spec fn read_items<T: BitDeserialize>(s: BitState, k: nat) -> (
    Result<Seq<T::V>, BitError>,
    BitState,
)
    decreases k,
{
    if k == 0 {
        (Ok(Seq::empty()), s)
    } else {
        let (r, t) = read_items::<T>(s, (k - 1) as nat);
        match r {
            Ok(xs) => {
                let (r2, u) = T::spec_bit_read(t);
                match r2 {
                    Ok(x) => (Ok(xs.push(x)), u),
                    Err(e) => (Err(e), u),
                }
            },
            Err(e) => (Err(e), t),
        }
    }
}

/// Valid writes stay valid when appended.
pub proof fn lemma_ops_valid_append(a: Seq<BitOp>, b: Seq<BitOp>)
    requires
        ops_valid(a),
        ops_valid(b),
    ensures
        ops_valid(a + b),
{
    assert forall|i: int| 0 <= i < (a + b).len() implies match #[trigger] (a + b)[i] {
        BitOp::Bit(_) => true,
        BitOp::Bits(_, n) => n <= 64,
    } by {
        if i < a.len() {
            assert((a + b)[i] == a[i]);
        } else {
            assert((a + b)[i] == b[i - a.len()]);
        }
    }
}

/// One more value of a run.
pub proof fn lemma_seq_ops_step<T: BitSerialize>(items: Seq<T::V>, i: int)
    requires
        0 <= i < items.len(),
        all_ok::<T>(items.take(i)),
    ensures
        seq_ops::<T>(items.take(i + 1)) == seq_ops::<T>(items.take(i)) + T::spec_bit_ops(items[i]),
{
    assert(items.take(i + 1).drop_last() =~= items.take(i));
    assert(items.take(i + 1).last() == items[i]);
}

/// Once a value fails, the values after it write nothing.
pub proof fn lemma_seq_ops_after_failure<T: BitSerialize>(items: Seq<T::V>, i: int, j: int)
    requires
        0 <= i < j <= items.len(),
        !T::spec_bit_ok(items[i]),
    ensures
        seq_ops::<T>(items.take(j)) == seq_ops::<T>(items.take(i + 1)),
    decreases j,
{
    if j > i + 1 {
        lemma_seq_ops_after_failure::<T>(items, i, j - 1);
        assert(items.take(j).drop_last() =~= items.take(j - 1));
        assert(!all_ok::<T>(items.take(j - 1))) by {
            assert(items.take(j - 1)[i] == items[i]);
        }
    }
}

/// The writes of a prefix of a run are no longer than those of the whole run.
pub proof fn lemma_seq_ops_len_mono<T: BitSerialize>(items: Seq<T::V>, i: int, j: int)
    requires
        0 <= i <= j <= items.len(),
    ensures
        ops_bits(seq_ops::<T>(items.take(i))).len() <= ops_bits(seq_ops::<T>(items.take(j))).len(),
    decreases j,
{
    if j > i {
        lemma_seq_ops_len_mono::<T>(items, i, j - 1);
        assert(items.take(j).drop_last() =~= items.take(j - 1));
        if all_ok::<T>(items.take(j - 1)) {
            lemma_ops_bits_append(
                seq_ops::<T>(items.take(j - 1)),
                T::spec_bit_ops(items.take(j).last()),
            );
        }
    }
}

/// The writes of a run are valid.
pub proof fn lemma_seq_ops_valid<T: BitSerialize>(items: Seq<T::V>)
    ensures
        ops_valid(seq_ops::<T>(items)),
    decreases items.len(),
{
    if items.len() > 0 {
        lemma_seq_ops_valid::<T>(items.drop_last());
        if all_ok::<T>(items.drop_last()) {
            T::lemma_bit_ops_valid(items.last());
            lemma_ops_valid_append(seq_ops::<T>(items.drop_last()), T::spec_bit_ops(items.last()));
        }
    }
}

/// Reading back a run of values that serialize without error.
pub proof fn lemma_read_items_roundtrip<T: BitDeserialize>(items: Seq<T::V>, s: BitState)
    requires
        all_ok::<T>(items),
        s.readable(),
        s.read_pos + ops_bits(seq_ops::<T>(items)).len() <= s.bits.len(),
        s.bits.subrange(
            s.read_pos as int,
            (s.read_pos + ops_bits(seq_ops::<T>(items)).len()) as int,
        ) == ops_bits(seq_ops::<T>(items)),
    ensures
        read_items::<T>(s, items.len()) == (
            Ok::<Seq<T::V>, BitError>(items),
            s.reading_at(s.read_pos + ops_bits(seq_ops::<T>(items)).len()),
        ),
    decreases items.len(),
{
    if items.len() > 0 {
        let init = items.drop_last();
        let x = items.last();
        let a = ops_bits(seq_ops::<T>(init));
        let b = ops_bits(T::spec_bit_ops(x));
        let r = s.read_pos as int;
        assert(all_ok::<T>(init));
        assert(T::spec_bit_ok(x)) by {
            assert(items[items.len() - 1] == x);
        }
        lemma_ops_bits_append(seq_ops::<T>(init), T::spec_bit_ops(x));
        assert(ops_bits(seq_ops::<T>(items)) == a + b);
        assert(s.bits.subrange(r, r + a.len()) =~= a) by {
            assert(s.bits.subrange(r, r + a.len()) =~= s.bits.subrange(r, r + a.len()
                + b.len()).subrange(0, a.len() as int));
        }
        lemma_read_items_roundtrip::<T>(init, s);
        let t = s.reading_at((s.read_pos + a.len()) as nat);
        assert(t.bits.subrange(t.read_pos as int, t.read_pos + b.len() as int) =~= b) by {
            assert(s.bits.subrange(r + a.len(), r + a.len() + b.len()) =~= s.bits.subrange(
                r,
                r + a.len() + b.len(),
            ).subrange(a.len() as int, a.len() + b.len() as int));
        }
        T::lemma_bit_roundtrip(x, t);
        assert(init.push(x) =~= items);
        assert(((items.len() - 1) as nat) == init.len());
        assert(read_items::<T>(s, init.len()) == (Ok::<Seq<T::V>, BitError>(init), t));
        assert(T::spec_bit_read(t) == (
            Ok::<T::V, BitError>(x),
            t.reading_at(t.read_pos + b.len()),
        ));
        assert(t.reading_at(t.read_pos + b.len()) == s.reading_at(
            s.read_pos + ops_bits(seq_ops::<T>(items)).len(),
        ));
        assert(read_items::<T>(s, items.len()) == (
            Ok::<Seq<T::V>, BitError>(init.push(x)),
            t.reading_at(t.read_pos + b.len()),
        ));
    } else {
        assert(items =~= Seq::<T::V>::empty());
        assert(s.reading_at(s.read_pos) == s);
    }
}

// ---------------------------------------------------------------------------
// Optional values.
// ---------------------------------------------------------------------------

impl<T: BitSerialize> BitSerialize for Option<T> {
    /// A presence bit, then the value when there is one.
    open spec fn spec_bit_ops(v: Option<T::V>) -> Seq<BitOp> {
        match v {
            Some(x) => seq![BitOp::Bit(true)] + T::spec_bit_ops(x),
            None => seq![BitOp::Bit(false)],
        }
    }

    open spec fn spec_bit_ok(v: Option<T::V>) -> bool {
        match v {
            Some(x) => T::spec_bit_ok(x),
            None => true,
        }
    }

    proof fn lemma_bit_ops_valid(v: Option<T::V>) {
        let s0 = BitState { bits: Seq::empty(), write_pos: 0, read_pos: 0, unpadded: 0 };
        match v {
            Some(x) => {
                lemma_single_op(s0, BitOp::Bit(true));
                T::lemma_bit_ops_valid(x);
                lemma_ops_valid_append(seq![BitOp::Bit(true)], T::spec_bit_ops(x));
            },
            None => {
                lemma_single_op(s0, BitOp::Bit(false));
            },
        }
    }

    fn bit_serialize(&self, writer: &mut BitBuffer) -> (r: Result<(), BitError>) {
        match self {
            Some(value) => {
                let ghost s0 = writer@;
                proof {
                    lemma_single_op(s0, BitOp::Bit(true));
                    lemma_ops_bits_append(
                        seq![BitOp::Bit(true)],
                        T::spec_bit_ops(value.deep_view()),
                    );
                    lemma_after_ops_append(
                        s0,
                        seq![BitOp::Bit(true)],
                        T::spec_bit_ops(value.deep_view()),
                    );
                }
                writer.write_bit(true)?;
                value.bit_serialize(writer)?;
            },
            None => {
                proof {
                    lemma_single_op(writer@, BitOp::Bit(false));
                }
                writer.write_bit(false)?;
            },
        }
        Ok(())
    }
}

impl<T: BitDeserialize> BitDeserialize for Option<T> {
    /// A presence bit, then the value when it is set.
    open spec fn spec_bit_read(s: BitState) -> (Result<Option<T::V>, BitError>, BitState) {
        let (r, t) = s.read_bit_result();
        match r {
            Ok(true) => {
                let (r2, u) = T::spec_bit_read(t);
                match r2 {
                    Ok(x) => (Ok(Some(x)), u),
                    Err(e) => (Err(e), u),
                }
            },
            Ok(false) => (Ok(None), t),
            Err(e) => (Err(e), t),
        }
    }

    fn bit_deserialize(reader: &mut BitBuffer) -> (r: Result<Option<T>, BitError>) {
        let has_value = reader.read_bit()?;
        if has_value {
            let value = T::bit_deserialize(reader)?;
            Ok(Some(value))
        } else {
            Ok(None)
        }
    }

    proof fn lemma_bit_roundtrip(v: Option<T::V>, s: BitState) {
        let r = s.read_pos as int;
        match v {
            Some(x) => {
                let b = ops_bits(T::spec_bit_ops(x));
                lemma_single_op(s, BitOp::Bit(true));
                lemma_ops_bits_append(seq![BitOp::Bit(true)], T::spec_bit_ops(x));
                assert(ops_bits(Self::spec_bit_ops(v)) == seq![true] + b);
                assert(s.bits[r] == s.bits.subrange(r, r + 1 + b.len())[0]);
                let t = s.reading_at((s.read_pos + 1) as nat);
                assert(t.bits.subrange(t.read_pos as int, t.read_pos + b.len() as int) =~= b) by {
                    assert(s.bits.subrange(r + 1, r + 1 + b.len()) =~= s.bits.subrange(
                        r,
                        r + 1 + b.len(),
                    ).subrange(1, 1 + b.len() as int));
                }
                T::lemma_bit_roundtrip(x, t);
            },
            None => {
                lemma_single_op(s, BitOp::Bit(false));
                assert(s.bits[r] == s.bits.subrange(r, r + 1)[0]);
            },
        }
    }
}

// ---------------------------------------------------------------------------
// Pairs.
// ---------------------------------------------------------------------------

impl<T: BitSerialize, U: BitSerialize> BitSerialize for (T, U) {
    /// The first value, then the second unless the first failed.
    open spec fn spec_bit_ops(v: (T::V, U::V)) -> Seq<BitOp> {
        if T::spec_bit_ok(v.0) {
            T::spec_bit_ops(v.0) + U::spec_bit_ops(v.1)
        } else {
            T::spec_bit_ops(v.0)
        }
    }

    open spec fn spec_bit_ok(v: (T::V, U::V)) -> bool {
        T::spec_bit_ok(v.0) && U::spec_bit_ok(v.1)
    }

    proof fn lemma_bit_ops_valid(v: (T::V, U::V)) {
        T::lemma_bit_ops_valid(v.0);
        U::lemma_bit_ops_valid(v.1);
        lemma_ops_valid_append(T::spec_bit_ops(v.0), U::spec_bit_ops(v.1));
    }

    fn bit_serialize(&self, writer: &mut BitBuffer) -> (r: Result<(), BitError>) {
        let ghost s0 = writer@;
        let ghost a = T::spec_bit_ops(self.0.deep_view());
        let ghost b = U::spec_bit_ops(self.1.deep_view());
        proof {
            lemma_ops_bits_append(a, b);
            lemma_after_ops_append(s0, a, b);
            T::lemma_bit_ops_valid(self.0.deep_view());
            lemma_after_ops(s0, a);
        }
        self.0.bit_serialize(writer)?;
        self.1.bit_serialize(writer)?;
        Ok(())
    }
}

impl<T: BitDeserialize, U: BitDeserialize> BitDeserialize for (T, U) {
    /// The first value, then the second.
    open spec fn spec_bit_read(s: BitState) -> (Result<(T::V, U::V), BitError>, BitState) {
        let (r, t) = T::spec_bit_read(s);
        match r {
            Ok(x) => {
                let (r2, u) = U::spec_bit_read(t);
                match r2 {
                    Ok(y) => (Ok((x, y)), u),
                    Err(e) => (Err(e), u),
                }
            },
            Err(e) => (Err(e), t),
        }
    }

    fn bit_deserialize(reader: &mut BitBuffer) -> (r: Result<(T, U), BitError>) {
        let first = T::bit_deserialize(reader)?;
        let second = U::bit_deserialize(reader)?;
        Ok((first, second))
    }

    proof fn lemma_bit_roundtrip(v: (T::V, U::V), s: BitState) {
        let r = s.read_pos as int;
        let a = ops_bits(T::spec_bit_ops(v.0));
        let b = ops_bits(U::spec_bit_ops(v.1));
        lemma_ops_bits_append(T::spec_bit_ops(v.0), U::spec_bit_ops(v.1));
        assert(s.bits.subrange(r, r + a.len()) =~= a) by {
            assert(s.bits.subrange(r, r + a.len()) =~= s.bits.subrange(r, r + a.len()
                + b.len()).subrange(0, a.len() as int));
        }
        T::lemma_bit_roundtrip(v.0, s);
        let t = s.reading_at((s.read_pos + a.len()) as nat);
        assert(t.bits.subrange(t.read_pos as int, t.read_pos + b.len() as int) =~= b) by {
            assert(s.bits.subrange(r + a.len(), r + a.len() + b.len()) =~= s.bits.subrange(
                r,
                r + a.len() + b.len(),
            ).subrange(a.len() as int, a.len() + b.len() as int));
        }
        U::lemma_bit_roundtrip(v.1, t);
    }
}


// ---------------------------------------------------------------------------
// Length-prefixed sequences.
// ---------------------------------------------------------------------------

/// The most items, or bytes, that a length prefix counts.
pub const DEFAULT_MAX_LEN: usize = 65535;

/// The width of a length prefix, in bits.
pub const LEN_BITS: usize = 16;

/// Once reading a run fails, reading more of it returns the same failure.
pub proof fn lemma_read_items_failure<T: BitDeserialize>(s: BitState, k: nat, j: nat)
    requires
        k <= j,
        read_items::<T>(s, k).0 is Err,
    ensures
        read_items::<T>(s, j) == read_items::<T>(s, k),
    decreases j,
{
    if j > k {
        lemma_read_items_failure::<T>(s, k, (j - 1) as nat);
    }
}

/// Reading a run one value at a time.
pub proof fn lemma_read_items_step<T: BitDeserialize>(s: BitState, k: nat, xs: Seq<T::V>)
    requires
        read_items::<T>(s, k).0 == Ok::<Seq<T::V>, BitError>(xs),
    ensures
        read_items::<T>(s, k + 1) == ({
            let t = read_items::<T>(s, k).1;
            match T::spec_bit_read(t).0 {
                Ok(x) => (Ok::<Seq<T::V>, BitError>(xs.push(x)), T::spec_bit_read(t).1),
                Err(e) => (Err::<Seq<T::V>, BitError>(e), T::spec_bit_read(t).1),
            }
        }),
{
    assert(((k + 1) - 1) as nat == k);
}

/// A length prefix followed by the values.
pub open spec fn prefixed_ops<T: BitSerialize>(v: Seq<T::V>) -> Seq<BitOp> {
    if v.len() > 65535 {
        Seq::empty()
    } else {
        seq![BitOp::Bits(v.len() as u64, 16)] + seq_ops::<T>(v)
    }
}

/// Reading a length prefix and then that many values.
pub open spec fn read_prefixed<T: BitDeserialize>(s: BitState) -> (
    Result<Seq<T::V>, BitError>,
    BitState,
) {
    let (r, t) = s.read_bits_result(16);
    match r {
        Ok(w) => if w > 65535 {
            (Err(BitError::InvalidData), t)
        } else {
            read_items::<T>(t, w as nat)
        },
        Err(e) => (Err(e), t),
    }
}

/// The writes of a length-prefixed run are valid.
proof fn lemma_prefixed_ops_valid<T: BitSerialize>(v: Seq<T::V>)
    ensures
        ops_valid(prefixed_ops::<T>(v)),
{
    if v.len() <= 65535 {
        lemma_single_op(
            BitState { bits: Seq::empty(), write_pos: 0, read_pos: 0, unpadded: 0 },
            BitOp::Bits(v.len() as u64, 16),
        );
        lemma_seq_ops_valid::<T>(v);
        lemma_ops_valid_append(seq![BitOp::Bits(v.len() as u64, 16)], seq_ops::<T>(v));
    }
}

/// Reading back a length-prefixed run.
proof fn lemma_prefixed_roundtrip<T: BitDeserialize>(v: Seq<T::V>, s: BitState)
    requires
        v.len() <= 65535,
        all_ok::<T>(v),
        s.readable(),
        s.read_pos + ops_bits(prefixed_ops::<T>(v)).len() <= s.bits.len(),
        s.bits.subrange(
            s.read_pos as int,
            (s.read_pos + ops_bits(prefixed_ops::<T>(v)).len()) as int,
        ) == ops_bits(prefixed_ops::<T>(v)),
    ensures
        read_prefixed::<T>(s) == (
            Ok::<Seq<T::V>, BitError>(v),
            s.reading_at(s.read_pos + ops_bits(prefixed_ops::<T>(v)).len()),
        ),
{
    let len_op = BitOp::Bits(v.len() as u64, 16);
    let a = value_bits(v.len() as u64, 16);
    let b = ops_bits(seq_ops::<T>(v));
    let r = s.read_pos as int;
    lemma_single_op(s, len_op);
    lemma_ops_bits_append(seq![len_op], seq_ops::<T>(v));
    assert(ops_bits(prefixed_ops::<T>(v)) == a + b);
    assert(s.bits.subrange(r, r + 16) =~= a) by {
        assert(s.bits.subrange(r, r + 16) =~= s.bits.subrange(r, r + 16 + b.len()).subrange(
            0,
            16,
        ));
    }
    lemma_bits_to_nat_of_value(v.len() as u64, 16);
    assert(pow2(16) == 65536) by {
        vstd::arithmetic::power2::lemma2_to64();
    }
    let t = s.reading_at((s.read_pos + 16) as nat);
    assert(t.bits.subrange(t.read_pos as int, t.read_pos + b.len() as int) =~= b) by {
        assert(s.bits.subrange(r + 16, r + 16 + b.len()) =~= s.bits.subrange(
            r,
            r + 16 + b.len(),
        ).subrange(16, 16 + b.len() as int));
    }
    lemma_read_items_roundtrip::<T>(v, t);
}

/// Writes a run of values one after another, stopping at the first that fails.
pub(crate) fn serialize_items<T: BitSerialize>(items: &[T], writer: &mut BitBuffer) -> (r: Result<
    (),
    BitError,
>)
    requires
        old(writer).spec_write_room(ops_bits(seq_ops::<T>(items.deep_view())).len()),
    ensures
        final(writer)@ == old(writer)@.after_ops(seq_ops::<T>(items.deep_view())),
        r is Ok <==> all_ok::<T>(items.deep_view()),
        r matches Err(e) ==> e == BitError::InvalidData,
{
    let ghost dv = items.deep_view();
    let ghost s0 = writer@;
    let ghost total = ops_bits(seq_ops::<T>(dv)).len();
    let mut i: usize = 0;
    proof {
        assert(dv.take(0) =~= Seq::<T::V>::empty());
        assert(s0.after_ops(Seq::<BitOp>::empty()) == s0);
    }
    while i < items.len()
        invariant
            dv == items.deep_view(),
            dv.len() == items.len(),
            i <= items.len(),
            total == ops_bits(seq_ops::<T>(dv)).len(),
            s0 == old(writer)@,
            s0.wf(),
            s0.write_pos + total <= usize::MAX,
            all_ok::<T>(dv.take(i as int)),
            writer@ == s0.after_ops(seq_ops::<T>(dv.take(i as int))),
        decreases items.len() - i,
    {
        let ghost before = writer@;
        proof {
            lemma_seq_ops_step::<T>(dv, i as int);
            lemma_seq_ops_len_mono::<T>(dv, i as int + 1, dv.len() as int);
            assert(dv.take(dv.len() as int) =~= dv);
            lemma_ops_bits_append(seq_ops::<T>(dv.take(i as int)), T::spec_bit_ops(dv[i as int]));
            lemma_after_ops(s0, seq_ops::<T>(dv.take(i as int)));
            lemma_after_ops_append(
                s0,
                seq_ops::<T>(dv.take(i as int)),
                T::spec_bit_ops(dv[i as int]),
            );
            assert(dv[i as int] == items@[i as int].deep_view());
        }
        match items[i].bit_serialize(writer) {
            Ok(()) => {},
            Err(e) => {
                proof {
                    assert(!T::spec_bit_ok(dv[i as int]));
                    assert(writer@ == before.after_ops(T::spec_bit_ops(dv[i as int])));
                    assert(writer@ == s0.after_ops(
                        seq_ops::<T>(dv.take(i as int)) + T::spec_bit_ops(dv[i as int]),
                    ));
                    assert(writer@ == s0.after_ops(seq_ops::<T>(dv.take(i + 1))));
                    lemma_seq_ops_after_failure::<T>(dv, i as int, dv.len() as int);
                    assert(writer@ == s0.after_ops(seq_ops::<T>(dv)));
                    assert(!all_ok::<T>(dv));
                }
                return Err(e);
            },
        }
        proof {
            assert(all_ok::<T>(dv.take(i + 1))) by {
                assert forall|j: int| 0 <= j < i + 1 implies #[trigger] T::spec_bit_ok(
                    dv.take(i + 1)[j],
                ) by {
                    if j < i {
                        assert(dv.take(i + 1)[j] == dv.take(i as int)[j]);
                    }
                }
            }
        }
        i = i + 1;
    }
    proof {
        assert(dv.take(i as int) =~= dv);
    }
    Ok(())
}

/// Reads `len` values one after another.
pub(crate) fn deserialize_items<T: BitDeserialize>(reader: &mut BitBuffer, len: usize) -> (r: Result<
    Vec<T>,
    BitError,
>)
    requires
        old(reader)@.readable(),
    ensures
        final(reader)@ == read_items::<T>(old(reader)@, len as nat).1,
        r matches Ok(v) ==> read_items::<T>(old(reader)@, len as nat).0 == Ok::<
            Seq<T::V>,
            BitError,
        >(v.deep_view()),
        r matches Err(e) ==> read_items::<T>(old(reader)@, len as nat).0 == Err::<
            Seq<T::V>,
            BitError,
        >(e),
        final(reader)@.readable(),
        final(reader)@.bits == old(reader)@.bits,
{
    let ghost t0 = reader@;
    let mut vec: Vec<T> = Vec::with_capacity(len);
    let mut i: usize = 0;
    proof {
        assert(vec.deep_view() =~= Seq::<T::V>::empty());
    }
    while i < len
        invariant
            i <= len,
            t0 == old(reader)@,
            reader@ == read_items::<T>(t0, i as nat).1,
            read_items::<T>(t0, i as nat).0 == Ok::<Seq<T::V>, BitError>(vec.deep_view()),
            reader@.readable(),
            reader@.bits == t0.bits,
        decreases len - i,
    {
        proof {
            lemma_read_items_step::<T>(t0, i as nat, vec.deep_view());
        }
        match T::bit_deserialize(reader) {
            Ok(item) => {
                let ghost old_dv = vec.deep_view();
                vec.push(item);
                proof {
                    assert(vec.deep_view() =~= old_dv.push(item.deep_view()));
                }
            },
            Err(e) => {
                proof {
                    let t = read_items::<T>(t0, i as nat).1;
                    assert(T::spec_bit_read(t).0 == Err::<T::V, BitError>(e));
                    assert(read_items::<T>(t0, (i + 1) as nat) == (
                        Err::<Seq<T::V>, BitError>(e),
                        T::spec_bit_read(t).1,
                    ));
                    lemma_read_items_failure::<T>(t0, (i + 1) as nat, len as nat);
                }
                return Err(e);
            },
        }
        i = i + 1;
    }
    Ok(vec)
}

impl<T: BitSerialize> BitSerialize for Vec<T> {
    /// A 16-bit length, then the items; nothing when there are more than 65535 items.
    open spec fn spec_bit_ops(v: Seq<T::V>) -> Seq<BitOp> {
        prefixed_ops::<T>(v)
    }

    open spec fn spec_bit_ok(v: Seq<T::V>) -> bool {
        v.len() <= 65535 && all_ok::<T>(v)
    }

    proof fn lemma_bit_ops_valid(v: Seq<T::V>) {
        lemma_prefixed_ops_valid::<T>(v);
    }

    fn bit_serialize(&self, writer: &mut BitBuffer) -> (r: Result<(), BitError>) {
        let max_len = DEFAULT_MAX_LEN;
        if self.len() > max_len {
            proof {
                assert(self.deep_view().len() == self.len());
            }
            return Err(BitError::InvalidData);
        }
        let ghost s0 = writer@;
        let ghost dv = self.deep_view();
        let ghost len_op = BitOp::Bits(self.len() as u64, 16);
        proof {
            lemma_single_op(s0, len_op);
            lemma_ops_bits_append(seq![len_op], seq_ops::<T>(dv));
            lemma_after_ops_append(s0, seq![len_op], seq_ops::<T>(dv));
        }
        writer.write_bits(self.len() as u64, LEN_BITS)?;
        let items = self.as_slice();
        proof {
            assert(items.deep_view() =~= dv);
        }
        serialize_items(items, writer)
    }
}

impl<T: BitDeserialize> BitDeserialize for Vec<T> {
    /// A 16-bit length, then that many items.
    open spec fn spec_bit_read(s: BitState) -> (Result<Seq<T::V>, BitError>, BitState) {
        read_prefixed::<T>(s)
    }

    fn bit_deserialize(reader: &mut BitBuffer) -> (r: Result<Vec<T>, BitError>) {
        let max_len = DEFAULT_MAX_LEN;
        let len = reader.read_bits(LEN_BITS)?;
        if len > max_len as u64 {
            return Err(BitError::InvalidData);
        }
        deserialize_items(reader, len as usize)
    }

    proof fn lemma_bit_roundtrip(v: Seq<T::V>, s: BitState) {
        lemma_prefixed_roundtrip::<T>(v, s);
    }
}

// ---------------------------------------------------------------------------
// Strings.
// ---------------------------------------------------------------------------

/// The UTF-8 bytes of a string, if they are valid (`String::from_utf8`).
#[verifier::external_body]
pub(crate) fn string_from_utf8(bytes: Vec<u8>) -> (r: Option<String>)
    ensures
        r is Some <==> vstd::utf8::valid_utf8(bytes@),
        r matches Some(s) ==> s@ == vstd::utf8::decode_utf8(bytes@),
{
    String::from_utf8(bytes).ok()
}

/// The UTF-8 bytes of a string.
pub open spec fn utf8_bytes(s: Seq<char>) -> Seq<u8> {
    vstd::utf8::encode_utf8(s)
}

impl BitSerialize for String {
    /// A 16-bit byte count, then the UTF-8 bytes; nothing when there are more than
    /// 65535 bytes.
    open spec fn spec_bit_ops(v: Seq<char>) -> Seq<BitOp> {
        prefixed_ops::<u8>(utf8_bytes(v))
    }

    open spec fn spec_bit_ok(v: Seq<char>) -> bool {
        utf8_bytes(v).len() <= 65535
    }

    proof fn lemma_bit_ops_valid(v: Seq<char>) {
        lemma_prefixed_ops_valid::<u8>(utf8_bytes(v));
    }

    fn bit_serialize(&self, writer: &mut BitBuffer) -> (r: Result<(), BitError>) {
        let max_len = DEFAULT_MAX_LEN;
        let bytes = self.as_str().as_bytes();
        if bytes.len() > max_len {
            return Err(BitError::InvalidData);
        }
        let ghost s0 = writer@;
        let ghost dv = bytes@;
        let ghost len_op = BitOp::Bits(bytes.len() as u64, 16);
        let ghost total = ops_bits(seq_ops::<u8>(dv)).len();
        proof {
            assert(dv == utf8_bytes(self@));
            lemma_single_op(s0, len_op);
            lemma_ops_bits_append(seq![len_op], seq_ops::<u8>(dv));
            lemma_after_ops_append(s0, seq![len_op], seq_ops::<u8>(dv));
        }
        writer.write_bits(bytes.len() as u64, LEN_BITS)?;
        let ghost s1 = writer@;
        let mut i: usize = 0;
        proof {
            assert(dv.take(0) =~= Seq::<u8>::empty());
            assert(s1.after_ops(Seq::<BitOp>::empty()) == s1);
        }
        while i < bytes.len()
            invariant
                dv == bytes@,
                i <= bytes.len(),
                total == ops_bits(seq_ops::<u8>(dv)).len(),
                s1.wf(),
                s1.write_pos + total <= usize::MAX,
                writer@ == s1.after_ops(seq_ops::<u8>(dv.take(i as int))),
            decreases bytes.len() - i,
        {
            proof {
                assert(all_ok::<u8>(dv.take(i as int)));
                lemma_seq_ops_step::<u8>(dv, i as int);
                lemma_seq_ops_len_mono::<u8>(dv, i as int + 1, dv.len() as int);
                assert(dv.take(dv.len() as int) =~= dv);
                lemma_ops_bits_append(
                    seq_ops::<u8>(dv.take(i as int)),
                    seq![BitOp::Bits(dv[i as int] as u64, 8)],
                );
                lemma_after_ops(s1, seq_ops::<u8>(dv.take(i as int)));
                lemma_after_ops_append(
                    s1,
                    seq_ops::<u8>(dv.take(i as int)),
                    seq![BitOp::Bits(dv[i as int] as u64, 8)],
                );
                lemma_single_op(writer@, BitOp::Bits(dv[i as int] as u64, 8));
            }
            writer.write_bits(bytes[i] as u64, 8)?;
            i = i + 1;
        }
        proof {
            assert(dv.take(i as int) =~= dv);
            assert(all_ok::<u8>(dv));
        }
        Ok(())
    }
}

impl BitDeserialize for String {
    /// A 16-bit byte count, then that many bytes, which must be valid UTF-8.
    open spec fn spec_bit_read(s: BitState) -> (Result<Seq<char>, BitError>, BitState) {
        let (r, t) = read_prefixed::<u8>(s);
        match r {
            Ok(bytes) => if vstd::utf8::valid_utf8(bytes) {
                (Ok(vstd::utf8::decode_utf8(bytes)), t)
            } else {
                (Err(BitError::InvalidData), t)
            },
            Err(e) => (Err(e), t),
        }
    }

    fn bit_deserialize(reader: &mut BitBuffer) -> (r: Result<String, BitError>) {
        let max_len = DEFAULT_MAX_LEN;
        let len = reader.read_bits(LEN_BITS)?;
        if len > max_len as u64 {
            return Err(BitError::InvalidData);
        }
        let bytes: Vec<u8> = deserialize_items(reader, len as usize)?;
        proof {
            assert(bytes.deep_view() =~= bytes@);
        }
        match string_from_utf8(bytes) {
            Some(s) => Ok(s),
            None => Err(BitError::InvalidData),
        }
    }

    proof fn lemma_bit_roundtrip(v: Seq<char>, s: BitState) {
        let bytes = utf8_bytes(v);
        assert(all_ok::<u8>(bytes));
        lemma_prefixed_roundtrip::<u8>(bytes, s);
        vstd::utf8::encode_utf8_valid_utf8(v);
        vstd::utf8::encode_utf8_decode_utf8(v);
    }
}


// ---------------------------------------------------------------------------
// Arrays.
// ---------------------------------------------------------------------------

/// The array holding the items of a vector of its length (`<[T; N]>::try_from`).
#[verifier::external_body]
pub(crate) fn array_from_vec<T, const N: usize>(v: Vec<T>) -> (r: [T; N])
    requires
        v@.len() == N,
    ensures
        r@ == v@,
{
    let converted: Result<[T; N], Vec<T>> = v.try_into();
    converted.ok().unwrap()
}

impl<T: BitSerialize, const N: usize> BitSerialize for [T; N] {
    /// The items one after another, with no length.
    open spec fn spec_bit_ops(v: Seq<T::V>) -> Seq<BitOp> {
        seq_ops::<T>(v)
    }

    open spec fn spec_bit_ok(v: Seq<T::V>) -> bool {
        v.len() == N && all_ok::<T>(v)
    }

    proof fn lemma_bit_ops_valid(v: Seq<T::V>) {
        lemma_seq_ops_valid::<T>(v);
    }

    fn bit_serialize(&self, writer: &mut BitBuffer) -> (r: Result<(), BitError>) {
        let items = self.as_slice();
        proof {
            assert(items.deep_view() =~= self.deep_view());
            assert(self@.len() == N);
        }
        serialize_items(items, writer)
    }
}

impl<T: BitDeserialize, const N: usize> BitDeserialize for [T; N] {
    /// `N` items one after another.
    open spec fn spec_bit_read(s: BitState) -> (Result<Seq<T::V>, BitError>, BitState) {
        read_items::<T>(s, N as nat)
    }

    fn bit_deserialize(reader: &mut BitBuffer) -> (r: Result<[T; N], BitError>) {
        let items: Vec<T> = deserialize_items(reader, N)?;
        proof {
            lemma_read_items_len::<T>(old(reader)@, N as nat);
        }
        let array: [T; N] = array_from_vec(items);
        proof {
            assert(array.deep_view() =~= items.deep_view());
        }
        Ok(array)
    }

    proof fn lemma_bit_roundtrip(v: Seq<T::V>, s: BitState) {
        lemma_read_items_roundtrip::<T>(v, s);
    }
}

/// A successful read of `k` values returns `k` values.
pub proof fn lemma_read_items_len<T: BitDeserialize>(s: BitState, k: nat)
    ensures
        read_items::<T>(s, k).0 matches Ok(xs) ==> xs.len() == k,
    decreases k,
{
    if k > 0 {
        lemma_read_items_len::<T>(s, (k - 1) as nat);
    }
}


// ---------------------------------------------------------------------------
// Triples and quadruples.
// ---------------------------------------------------------------------------

/// Two runs of writes, one after the other, from a well-formed state.
pub proof fn lemma_then(s: BitState, a: Seq<BitOp>, b: Seq<BitOp>)
    requires
        s.wf(),
    ensures
        ops_bits(a + b) == ops_bits(a) + ops_bits(b),
        s.after_ops(a + b) == s.after_ops(a).after_ops(b),
        s.after_ops(a).wf(),
        s.after_ops(a).write_pos == s.write_pos + ops_bits(a).len(),
{
    lemma_ops_bits_append(a, b);
    lemma_after_ops_append(s, a, b);
    lemma_after_ops(s, a);
}

/// Bits that stand for two runs, one after the other, split into the two.
pub proof fn lemma_split_bits(s: BitState, a: Seq<bool>, b: Seq<bool>)
    requires
        s.read_pos + a.len() + b.len() <= s.bits.len(),
        s.bits.subrange(s.read_pos as int, (s.read_pos + a.len() + b.len()) as int) == a + b,
    ensures
        s.read_pos + a.len() <= s.bits.len(),
        s.bits.subrange(s.read_pos as int, s.read_pos + a.len() as int) == a,
        s.reading_at((s.read_pos + a.len()) as nat).bits.subrange(
            (s.read_pos + a.len()) as int,
            (s.read_pos + a.len() + b.len()) as int,
        ) == b,
{
    let r = s.read_pos as int;
    assert(s.bits.subrange(r, r + a.len()) =~= s.bits.subrange(r, r + a.len() + b.len()).subrange(
        0,
        a.len() as int,
    ));
    assert(s.bits.subrange(r + a.len(), r + a.len() + b.len()) =~= s.bits.subrange(
        r,
        r + a.len() + b.len(),
    ).subrange(a.len() as int, a.len() + b.len() as int));
}

impl<T: BitSerialize, U: BitSerialize, W: BitSerialize> BitSerialize for (T, U, W) {
    /// The values in order, stopping after the first that fails.
    open spec fn spec_bit_ops(v: (T::V, U::V, W::V)) -> Seq<BitOp> {
        if !T::spec_bit_ok(v.0) {
            T::spec_bit_ops(v.0)
        } else if !U::spec_bit_ok(v.1) {
            T::spec_bit_ops(v.0) + U::spec_bit_ops(v.1)
        } else {
            T::spec_bit_ops(v.0) + U::spec_bit_ops(v.1) + W::spec_bit_ops(v.2)
        }
    }

    open spec fn spec_bit_ok(v: (T::V, U::V, W::V)) -> bool {
        T::spec_bit_ok(v.0) && U::spec_bit_ok(v.1) && W::spec_bit_ok(v.2)
    }

    proof fn lemma_bit_ops_valid(v: (T::V, U::V, W::V)) {
        T::lemma_bit_ops_valid(v.0);
        U::lemma_bit_ops_valid(v.1);
        W::lemma_bit_ops_valid(v.2);
        lemma_ops_valid_append(T::spec_bit_ops(v.0), U::spec_bit_ops(v.1));
        lemma_ops_valid_append(
            T::spec_bit_ops(v.0) + U::spec_bit_ops(v.1),
            W::spec_bit_ops(v.2),
        );
    }

    fn bit_serialize(&self, writer: &mut BitBuffer) -> (r: Result<(), BitError>) {
        let ghost s0 = writer@;
        let ghost a = T::spec_bit_ops(self.0.deep_view());
        let ghost b = U::spec_bit_ops(self.1.deep_view());
        let ghost c = W::spec_bit_ops(self.2.deep_view());
        proof {
            lemma_then(s0, a, b);
            lemma_then(s0, a + b, c);
            lemma_then(s0.after_ops(a), b, c);
            assert(a + b + c =~= a + (b + c));
        }
        self.0.bit_serialize(writer)?;
        self.1.bit_serialize(writer)?;
        self.2.bit_serialize(writer)?;
        Ok(())
    }
}

impl<T: BitDeserialize, U: BitDeserialize, W: BitDeserialize> BitDeserialize for (T, U, W) {
    /// The values in order.
    open spec fn spec_bit_read(s: BitState) -> (Result<(T::V, U::V, W::V), BitError>, BitState) {
        let (r1, t1) = T::spec_bit_read(s);
        match r1 {
            Ok(x) => {
                let (r2, t2) = U::spec_bit_read(t1);
                match r2 {
                    Ok(y) => {
                        let (r3, t3) = W::spec_bit_read(t2);
                        match r3 {
                            Ok(z) => (Ok((x, y, z)), t3),
                            Err(e) => (Err(e), t3),
                        }
                    },
                    Err(e) => (Err(e), t2),
                }
            },
            Err(e) => (Err(e), t1),
        }
    }

    fn bit_deserialize(reader: &mut BitBuffer) -> (r: Result<(T, U, W), BitError>) {
        let first = T::bit_deserialize(reader)?;
        let second = U::bit_deserialize(reader)?;
        let third = W::bit_deserialize(reader)?;
        Ok((first, second, third))
    }

    proof fn lemma_bit_roundtrip(v: (T::V, U::V, W::V), s: BitState) {
        let a = ops_bits(T::spec_bit_ops(v.0));
        let b = ops_bits(U::spec_bit_ops(v.1));
        let c = ops_bits(W::spec_bit_ops(v.2));
        lemma_ops_bits_append(T::spec_bit_ops(v.0), U::spec_bit_ops(v.1));
        lemma_ops_bits_append(T::spec_bit_ops(v.0) + U::spec_bit_ops(v.1), W::spec_bit_ops(v.2));
        assert(a + b + c =~= a + (b + c));
        lemma_split_bits(s, a, b + c);
        T::lemma_bit_roundtrip(v.0, s);
        let t1 = s.reading_at((s.read_pos + a.len()) as nat);
        lemma_split_bits(t1, b, c);
        U::lemma_bit_roundtrip(v.1, t1);
        let t2 = t1.reading_at((t1.read_pos + b.len()) as nat);
        W::lemma_bit_roundtrip(v.2, t2);
    }
}

impl<T: BitSerialize, U: BitSerialize, W: BitSerialize, X: BitSerialize> BitSerialize for (
    T,
    U,
    W,
    X,
) {
    /// The values in order, stopping after the first that fails.
    open spec fn spec_bit_ops(v: (T::V, U::V, W::V, X::V)) -> Seq<BitOp> {
        if !T::spec_bit_ok(v.0) {
            T::spec_bit_ops(v.0)
        } else if !U::spec_bit_ok(v.1) {
            T::spec_bit_ops(v.0) + U::spec_bit_ops(v.1)
        } else if !W::spec_bit_ok(v.2) {
            T::spec_bit_ops(v.0) + U::spec_bit_ops(v.1) + W::spec_bit_ops(v.2)
        } else {
            T::spec_bit_ops(v.0) + U::spec_bit_ops(v.1) + W::spec_bit_ops(v.2) + X::spec_bit_ops(
                v.3,
            )
        }
    }

    open spec fn spec_bit_ok(v: (T::V, U::V, W::V, X::V)) -> bool {
        T::spec_bit_ok(v.0) && U::spec_bit_ok(v.1) && W::spec_bit_ok(v.2) && X::spec_bit_ok(v.3)
    }

    proof fn lemma_bit_ops_valid(v: (T::V, U::V, W::V, X::V)) {
        T::lemma_bit_ops_valid(v.0);
        U::lemma_bit_ops_valid(v.1);
        W::lemma_bit_ops_valid(v.2);
        X::lemma_bit_ops_valid(v.3);
        let a = T::spec_bit_ops(v.0);
        let b = U::spec_bit_ops(v.1);
        let c = W::spec_bit_ops(v.2);
        lemma_ops_valid_append(a, b);
        lemma_ops_valid_append(a + b, c);
        lemma_ops_valid_append(a + b + c, X::spec_bit_ops(v.3));
    }

    fn bit_serialize(&self, writer: &mut BitBuffer) -> (r: Result<(), BitError>) {
        let ghost s0 = writer@;
        let ghost a = T::spec_bit_ops(self.0.deep_view());
        let ghost b = U::spec_bit_ops(self.1.deep_view());
        let ghost c = W::spec_bit_ops(self.2.deep_view());
        let ghost d = X::spec_bit_ops(self.3.deep_view());
        proof {
            lemma_then(s0, a, b);
            lemma_then(s0, a + b, c);
            lemma_then(s0, a + b + c, d);
            lemma_then(s0.after_ops(a), b, c);
            lemma_then(s0.after_ops(a), b + c, d);
            lemma_then(s0.after_ops(a + b), c, d);
            assert(a + b + c =~= a + (b + c));
            assert(a + b + c + d =~= a + (b + c + d));
            assert(a + b + c + d =~= (a + b) + (c + d));
            assert(b + c + d =~= b + (c + d));
        }
        self.0.bit_serialize(writer)?;
        self.1.bit_serialize(writer)?;
        self.2.bit_serialize(writer)?;
        self.3.bit_serialize(writer)?;
        Ok(())
    }
}

impl<T: BitDeserialize, U: BitDeserialize, W: BitDeserialize, X: BitDeserialize> BitDeserialize for (
    T,
    U,
    W,
    X,
) {
    /// The values in order.
    open spec fn spec_bit_read(s: BitState) -> (
        Result<(T::V, U::V, W::V, X::V), BitError>,
        BitState,
    ) {
        let (r1, t1) = T::spec_bit_read(s);
        match r1 {
            Ok(x) => {
                let (r2, t2) = U::spec_bit_read(t1);
                match r2 {
                    Ok(y) => {
                        let (r3, t3) = W::spec_bit_read(t2);
                        match r3 {
                            Ok(z) => {
                                let (r4, t4) = X::spec_bit_read(t3);
                                match r4 {
                                    Ok(w) => (Ok((x, y, z, w)), t4),
                                    Err(e) => (Err(e), t4),
                                }
                            },
                            Err(e) => (Err(e), t3),
                        }
                    },
                    Err(e) => (Err(e), t2),
                }
            },
            Err(e) => (Err(e), t1),
        }
    }

    fn bit_deserialize(reader: &mut BitBuffer) -> (r: Result<(T, U, W, X), BitError>) {
        let first = T::bit_deserialize(reader)?;
        let second = U::bit_deserialize(reader)?;
        let third = W::bit_deserialize(reader)?;
        let fourth = X::bit_deserialize(reader)?;
        Ok((first, second, third, fourth))
    }

    proof fn lemma_bit_roundtrip(v: (T::V, U::V, W::V, X::V), s: BitState) {
        let a = ops_bits(T::spec_bit_ops(v.0));
        let b = ops_bits(U::spec_bit_ops(v.1));
        let c = ops_bits(W::spec_bit_ops(v.2));
        let d = ops_bits(X::spec_bit_ops(v.3));
        let oa = T::spec_bit_ops(v.0);
        let ob = U::spec_bit_ops(v.1);
        let oc = W::spec_bit_ops(v.2);
        lemma_ops_bits_append(oa, ob);
        lemma_ops_bits_append(oa + ob, oc);
        lemma_ops_bits_append(oa + ob + oc, X::spec_bit_ops(v.3));
        assert(a + b + c + d =~= a + (b + (c + d)));
        lemma_split_bits(s, a, b + (c + d));
        T::lemma_bit_roundtrip(v.0, s);
        let t1 = s.reading_at((s.read_pos + a.len()) as nat);
        lemma_split_bits(t1, b, c + d);
        U::lemma_bit_roundtrip(v.1, t1);
        let t2 = t1.reading_at((t1.read_pos + b.len()) as nat);
        lemma_split_bits(t2, c, d);
        W::lemma_bit_roundtrip(v.2, t2);
        let t3 = t2.reading_at((t2.read_pos + c.len()) as nat);
        X::lemma_bit_roundtrip(v.3, t3);
    }
}


/// The writes of a run of bytes take 8 bits each.
proof fn lemma_byte_run_bits(bytes: Seq<u8>)
    ensures
        all_ok::<u8>(bytes),
        ops_bits(seq_ops::<u8>(bytes)).len() == 8 * bytes.len(),
    decreases bytes.len(),
{
    if bytes.len() > 0 {
        lemma_byte_run_bits(bytes.drop_last());
        lemma_single_op(empty_state(), BitOp::Bits(bytes.last() as u64, 8));
        lemma_ops_bits_append(seq_ops::<u8>(bytes.drop_last()), seq![BitOp::Bits(bytes.last() as u64, 8)]);
    }
}

/// A string is written without error exactly when its UTF-8 form has at most 65535
/// bytes, and then in 16 bits of length followed by 8 bits for each byte.
pub proof fn lemma_string_written_size(v: Seq<char>)
    ensures
        <String as BitSerialize>::spec_bit_ok(v) <==> vstd::utf8::encode_utf8(v).len() <= 65535,
        vstd::utf8::encode_utf8(v).len() <= 65535 ==> ops_bits(
            <String as BitSerialize>::spec_bit_ops(v),
        ).len() == 16 + 8 * vstd::utf8::encode_utf8(v).len(),
{
    let bytes = vstd::utf8::encode_utf8(v);
    lemma_byte_run_bits(bytes);
    if bytes.len() <= 65535 {
        lemma_single_op(empty_state(), BitOp::Bits(bytes.len() as u64, 16));
        lemma_ops_bits_append(seq![BitOp::Bits(bytes.len() as u64, 16)], seq_ops::<u8>(bytes));
    }
}

// ---------------------------------------------------------------------------
// The round trip through bytes.
// ---------------------------------------------------------------------------

/// The state of [`BitBuffer::new`].
pub open spec fn empty_state() -> BitState {
    BitState { bits: Seq::empty(), write_pos: 0, read_pos: 0, unpadded: 0 }
}

/// The state of [`BitBuffer::from_bytes`] on bytes whose bits are `bits`.
pub open spec fn reader_state(bits: Seq<bool>) -> BitState {
    BitState { bits, write_pos: 0, read_pos: 0, unpadded: 0 }
}

/// The bits that [`BitBuffer::into_bytes`] hands over after serializing `v` into a new
/// buffer.
pub open spec fn serialized_bits<T: BitSerialize>(v: T::V, pad_to_byte: bool) -> Seq<bool> {
    let s = empty_state().after_ops(T::spec_bit_ops(v));
    if pad_to_byte {
        s.bits_after_pad()
    } else {
        s.bits
    }
}

/// Serializing a value into a new buffer, taking its bytes, and deserializing from a
/// buffer made of those bytes gives the value back, padded or not. The bytes are the
/// value's bits followed by zero bits up to the next byte boundary.
pub proof fn lemma_serialize_deserialize<T: BitDeserialize>(v: T::V, pad_to_byte: bool)
    requires
        T::spec_bit_ok(v),
        ops_bits(T::spec_bit_ops(v)).len() + 72 <= usize::MAX,
    ensures
        serialized_bits::<T>(v, pad_to_byte) == ops_bits(T::spec_bit_ops(v)) + zero_bits(
            (serialized_bits::<T>(v, pad_to_byte).len() - ops_bits(T::spec_bit_ops(v)).len()) as nat,
        ),
        serialized_bits::<T>(v, pad_to_byte).len() == 8 * bytes_for(
            ops_bits(T::spec_bit_ops(v)).len(),
        ),
        T::spec_bit_read(reader_state(serialized_bits::<T>(v, pad_to_byte))).0 == Ok::<
            T::V,
            BitError,
        >(v),
{
    let ops = T::spec_bit_ops(v);
    let enc = ops_bits(ops);
    let s0 = empty_state();
    T::lemma_bit_ops_valid(v);
    assert(s0.written() =~= Seq::<bool>::empty());
    lemma_compact_after_ops(s0, ops);
    let s1 = s0.after_ops(ops);
    assert(s0.written() + enc =~= enc);
    lemma_compact_pad(s1);
    let bits = serialized_bits::<T>(v, pad_to_byte);
    assert(bits == s1.bits);
    assert(bits =~= enc + zero_bits((bits.len() - enc.len()) as nat)) by {
        assert forall|q: int| 0 <= q < bits.len() implies bits[q] == (enc + zero_bits(
            (bits.len() - enc.len()) as nat,
        ))[q] by {
            if q < enc.len() {
                assert(s1.written()[q] == bits[q]);
            }
        }
    }
    let reader = reader_state(bits);
    assert(reader.bits.subrange(0, enc.len() as int) =~= enc) by {
        assert forall|q: int| 0 <= q < enc.len() implies reader.bits.subrange(
            0,
            enc.len() as int,
        )[q] == enc[q] by {
            assert(s1.written()[q] == bits[q]);
        }
    }
    T::lemma_bit_roundtrip(v, reader);
}

/// After any run of writes into a new buffer, padding to a byte boundary changes nothing,
/// so [`BitBuffer::into_bytes`] hands over bytes with the same bits either way (and bytes
/// with the same bits are the same bytes, `lemma_bits_of_injective`): the written bits,
/// then zero bits up to the next byte boundary, in `(n + 7) / 8` bytes for `n` bits.
pub proof fn lemma_written_bytes(ops: Seq<BitOp>)
    requires
        ops_valid(ops),
    ensures
        ({
            let s = empty_state().after_ops(ops);
            let n = ops_bits(ops).len();
            &&& s.bits_after_pad() == s.bits
            &&& s.write_pos == n
            &&& s.bits.len() == 8 * bytes_for(n)
            &&& s.bits == ops_bits(ops) + zero_bits((s.bits.len() - n) as nat)
        }),
{
    let enc = ops_bits(ops);
    let s0 = empty_state();
    assert(s0.written() =~= Seq::<bool>::empty());
    lemma_compact_after_ops(s0, ops);
    let s1 = s0.after_ops(ops);
    assert(s0.written() + enc =~= enc);
    lemma_compact_pad(s1);
    let bits = s1.bits;
    assert(bits =~= enc + zero_bits((bits.len() - enc.len()) as nat)) by {
        assert forall|q: int| 0 <= q < bits.len() implies bits[q] == (enc + zero_bits(
            (bits.len() - enc.len()) as nat,
        ))[q] by {
            if q < enc.len() {
                assert(s1.written()[q] == bits[q]);
            }
        }
    }
}

/// The writes of `values[i]` in `widths[i]` bits, in order.
pub open spec fn field_writes(values: Seq<u64>, widths: Seq<nat>) -> Seq<BitOp> {
    Seq::new(values.len(), |i: int| BitOp::Bits(values[i], widths[i]))
}

/// What reading runs of `widths[i]` bits one after another returns, and the state after
/// it; reading stops at the first that fails.
pub open spec fn read_fields(s: BitState, widths: Seq<nat>) -> (Result<Seq<u64>, BitError>, BitState)
    decreases widths.len(),
{
    if widths.len() == 0 {
        (Ok(Seq::empty()), s)
    } else {
        let (r, t) = read_fields(s, widths.drop_last());
        match r {
            Ok(xs) => {
                let (r2, u) = t.read_bits_result(widths.last());
                match r2 {
                    Ok(x) => (Ok(xs.push(x)), u),
                    Err(e) => (Err(e), u),
                }
            },
            Err(e) => (Err(e), t),
        }
    }
}

/// The low `widths[i]` bits of each value.
pub open spec fn low_bits_of(values: Seq<u64>, widths: Seq<nat>) -> Seq<u64> {
    Seq::new(values.len(), |i: int| (values[i] as nat % pow2(widths[i])) as u64)
}

/// Every width is one that a single write takes.
pub open spec fn widths_ok(values: Seq<u64>, widths: Seq<nat>) -> bool {
    &&& values.len() == widths.len()
    &&& forall|i: int| 0 <= i < widths.len() ==> 1 <= #[trigger] widths[i] <= 64
}

/// Reading fields where their bits stand gives their low bits back.
proof fn lemma_read_fields_at(values: Seq<u64>, widths: Seq<nat>, s: BitState)
    requires
        widths_ok(values, widths),
        s.readable(),
        s.read_pos + ops_bits(field_writes(values, widths)).len() <= s.bits.len(),
        s.bits.subrange(
            s.read_pos as int,
            (s.read_pos + ops_bits(field_writes(values, widths)).len()) as int,
        ) == ops_bits(field_writes(values, widths)),
    ensures
        read_fields(s, widths) == (
            Ok::<Seq<u64>, BitError>(low_bits_of(values, widths)),
            s.reading_at(s.read_pos + ops_bits(field_writes(values, widths)).len()),
        ),
    decreases widths.len(),
{
    if widths.len() == 0 {
        assert(low_bits_of(values, widths) =~= Seq::<u64>::empty());
        assert(field_writes(values, widths) =~= Seq::<BitOp>::empty());
        assert(s.reading_at(s.read_pos) == s);
    } else {
        let vi = values.drop_last();
        let wi = widths.drop_last();
        let v = values.last();
        let n = widths.last();
        assert(1 <= widths[widths.len() - 1] <= 64);
        let init = field_writes(vi, wi);
        assert(field_writes(values, widths) =~= init + seq![BitOp::Bits(v, n)]);
        lemma_ops_bits_append(init, seq![BitOp::Bits(v, n)]);
        lemma_single_op(s, BitOp::Bits(v, n));
        let a = ops_bits(init);
        let b = value_bits(v, n);
        assert(widths_ok(vi, wi)) by {
            assert forall|i: int| 0 <= i < wi.len() implies 1 <= #[trigger] wi[i] <= 64 by {
                assert(wi[i] == widths[i]);
            }
        }
        lemma_split_bits(s, a, b);
        lemma_read_fields_at(vi, wi, s);
        let t = s.reading_at(s.read_pos + a.len());
        lemma_bits_to_nat_of_value(v, n);
        assert(t.read_bits_result(n) == (
            Ok::<u64, BitError>((v as nat % pow2(n)) as u64),
            t.reading_at(t.read_pos + n),
        )) by {
            assert(t.bits.subrange(t.read_pos as int, (t.read_pos + n) as int) == b);
            vstd::arithmetic::power2::lemma_pow2_pos(n);
            vstd::arithmetic::div_mod::lemma_mod_bound(v as int, pow2(n) as int);
            if n < 64 {
                vstd::arithmetic::power2::lemma_pow2_strictly_increases(n, 64);
            }
            vstd::arithmetic::power2::lemma2_to64_rest();
        }
        assert(low_bits_of(values, widths) =~= low_bits_of(vi, wi).push(
            (v as nat % pow2(n)) as u64,
        ));
    }
}

/// Fields written into a new buffer come back in order, as the low bits of each value,
/// when read with the same widths from a buffer made of its bytes, padded or not; the
/// reading ends right after the written bits.
pub proof fn lemma_fields_roundtrip(values: Seq<u64>, widths: Seq<nat>, pad_to_byte: bool)
    requires
        widths_ok(values, widths),
        ops_bits(field_writes(values, widths)).len() + 72 <= usize::MAX,
    ensures
        ({
            let s = empty_state().after_ops(field_writes(values, widths));
            let bits = if pad_to_byte {
                s.bits_after_pad()
            } else {
                s.bits
            };
            read_fields(reader_state(bits), widths) == (
                Ok::<Seq<u64>, BitError>(low_bits_of(values, widths)),
                reader_state(bits).reading_at(ops_bits(field_writes(values, widths)).len()),
            )
        }),
{
    let ops = field_writes(values, widths);
    assert(ops_valid(ops)) by {
        assert forall|i: int| 0 <= i < ops.len() implies match #[trigger] ops[i] {
            BitOp::Bit(_) => true,
            BitOp::Bits(_, n) => n <= 64,
        } by {
            assert(1 <= widths[i] <= 64);
        }
    }
    lemma_written_bytes(ops);
    let enc = ops_bits(ops);
    let s = empty_state().after_ops(ops);
    let reader = reader_state(s.bits);
    assert(reader.bits.subrange(0, enc.len() as int) =~= enc);
    lemma_read_fields_at(values, widths, reader);
}

} // verus!
