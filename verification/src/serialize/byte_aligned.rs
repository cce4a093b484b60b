//! Byte-aligned serialization: whole bytes, multi-byte integers least significant byte
//! first, lengths as 32-bit counts.
use vstd::prelude::*;
use byteorder::{ByteOrder, LittleEndian, WriteBytesExt};
use super::bit_io::BitError;
use super::{array_from_vec, string_from_utf8, utf8_bytes};

verus! {

/// The `n` bytes of `v`, least significant first (higher bytes are dropped).
pub open spec fn le_bytes(v: nat, n: nat) -> Seq<u8>
    decreases n,
{
    if n == 0 {
        Seq::empty()
    } else {
        seq![(v % 256) as u8] + le_bytes(v / 256, (n - 1) as nat)
    }
}

/// The number whose bytes, least significant first, are `b`.
pub open spec fn le_value(b: Seq<u8>) -> nat
    decreases b.len(),
{
    if b.len() == 0 {
        0
    } else {
        (b[0] + 256 * le_value(b.drop_first())) as nat
    }
}

/// 256 to the power `n`.
pub open spec fn pow256(n: nat) -> nat
    decreases n,
{
    if n == 0 {
        1
    } else {
        256 * pow256((n - 1) as nat)
    }
}

/// The bytes of a number that fits give the number back.
pub proof fn lemma_le_roundtrip(v: nat, n: nat)
    requires
        v < pow256(n),
    ensures
        le_bytes(v, n).len() == n,
        le_value(le_bytes(v, n)) == v,
    decreases n,
{
    if n > 0 {
        let p = pow256((n - 1) as nat);
        assert(v / 256 < p) by (nonlinear_arith)
            requires
                v < 256 * p,
        ;
        lemma_le_roundtrip(v / 256, (n - 1) as nat);
        let b = le_bytes(v, n);
        assert(b.drop_first() =~= le_bytes(v / 256, (n - 1) as nat));
        assert(v == v % 256 + 256 * (v / 256)) by (nonlinear_arith);
    }
}

/// The sizes of the integer types.
pub proof fn lemma_pow256_values()
    ensures
        pow256(2) == 0x1_0000,
        pow256(4) == 0x1_0000_0000,
        pow256(8) == 0x1_0000_0000_0000_0000,
{
    reveal_with_fuel(pow256, 9);
}

/// Calls byteorder's `WriteBytesExt::write_u16::<LittleEndian>` on a vector, which appends
/// the two bytes of `v`, least significant first; writing to a vector does not fail.
#[verifier::external_body]
fn append_u16_le(out: &mut Vec<u8>, v: u16)
    ensures
        final(out)@ == old(out)@ + le_bytes(v as nat, 2),
{
    let _ = out.write_u16::<LittleEndian>(v);
}

/// Calls byteorder's `WriteBytesExt::write_u32::<LittleEndian>` on a vector, which appends
/// the four bytes of `v`, least significant first; writing to a vector does not fail.
#[verifier::external_body]
fn append_u32_le(out: &mut Vec<u8>, v: u32)
    ensures
        final(out)@ == old(out)@ + le_bytes(v as nat, 4),
{
    let _ = out.write_u32::<LittleEndian>(v);
}

/// Calls byteorder's `WriteBytesExt::write_u64::<LittleEndian>` on a vector, which appends
/// the eight bytes of `v`, least significant first; writing to a vector does not fail.
#[verifier::external_body]
fn append_u64_le(out: &mut Vec<u8>, v: u64)
    ensures
        final(out)@ == old(out)@ + le_bytes(v as nat, 8),
{
    let _ = out.write_u64::<LittleEndian>(v);
}

/// Calls byteorder's `<LittleEndian as ByteOrder>::read_u16`, which reads the first two
/// bytes of `buf`, least significant first.
#[verifier::external_body]
fn decode_u16_le(buf: &[u8]) -> (r: u16)
    requires
        buf@.len() >= 2,
    ensures
        r as nat == le_value(buf@.take(2)),
{
    LittleEndian::read_u16(buf)
}

/// Calls byteorder's `<LittleEndian as ByteOrder>::read_u32`, which reads the first four
/// bytes of `buf`, least significant first.
#[verifier::external_body]
fn decode_u32_le(buf: &[u8]) -> (r: u32)
    requires
        buf@.len() >= 4,
    ensures
        r as nat == le_value(buf@.take(4)),
{
    LittleEndian::read_u32(buf)
}

/// Calls byteorder's `<LittleEndian as ByteOrder>::read_u64`, which reads the first eight
/// bytes of `buf`, least significant first.
#[verifier::external_body]
fn decode_u64_le(buf: &[u8]) -> (r: u64)
    requires
        buf@.len() >= 8,
    ensures
        r as nat == le_value(buf@.take(8)),
{
    LittleEndian::read_u64(buf)
}

/// A reader over bytes: the bytes and how many of them were read.
pub struct ByteReader {
    data: Vec<u8>,
    pos: usize,
}

/// What reading an `n`-byte integer at `pos` gives, and where reading stops: running past
/// the end is an unexpected end and reads nothing.
pub open spec fn read_le(data: Seq<u8>, pos: nat, n: nat) -> (Result<nat, BitError>, nat) {
    if pos + n <= data.len() {
        (Ok(le_value(data.subrange(pos as int, (pos + n) as int))), pos + n)
    } else {
        (Err(BitError::UnexpectedEof), pos)
    }
}

impl ByteReader {
    /// The bytes.
    pub closed spec fn spec_data(&self) -> Seq<u8> {
        self.data@
    }

    /// How many bytes were read.
    pub closed spec fn spec_pos(&self) -> nat {
        self.pos as nat
    }

    /// The position is within the bytes.
    pub open spec fn wf(&self) -> bool {
        self.spec_pos() <= self.spec_data().len()
    }

    /// A reader at the start of `data`.
    pub fn new(data: Vec<u8>) -> (r: Self)
        ensures
            r.wf(),
            r.spec_data() == data@,
            r.spec_pos() == 0,
    {
        ByteReader { data, pos: 0 }
    }

    /// How many bytes were read.
    pub fn position(&self) -> (r: usize)
        ensures
            r == self.spec_pos(),
    {
        self.pos
    }

    /// Reads one byte.
    fn read_byte(&mut self) -> (r: Result<u8, BitError>)
        requires
            old(self).wf(),
        ensures
            final(self).wf(),
            final(self).spec_data() == old(self).spec_data(),
            old(self).spec_pos() < old(self).spec_data().len() ==> {
                &&& r == Ok::<u8, BitError>(old(self).spec_data()[old(self).spec_pos() as int])
                &&& final(self).spec_pos() == old(self).spec_pos() + 1
            },
            old(self).spec_pos() >= old(self).spec_data().len() ==> {
                &&& r == Err::<u8, BitError>(BitError::UnexpectedEof)
                &&& final(self).spec_pos() == old(self).spec_pos()
            },
    {
        if self.pos >= self.data.len() {
            return Err(BitError::UnexpectedEof);
        }
        let b = self.data[self.pos];
        self.pos = self.pos + 1;
        Ok(b)
    }

    /// Reads `n` bytes.
    fn read_exact(&mut self, n: usize) -> (r: Result<Vec<u8>, BitError>)
        requires
            old(self).wf(),
        ensures
            final(self).wf(),
            final(self).spec_data() == old(self).spec_data(),
            old(self).spec_pos() + n <= old(self).spec_data().len() ==> {
                &&& r is Ok
                &&& r->Ok_0@ == old(self).spec_data().subrange(
                    old(self).spec_pos() as int,
                    old(self).spec_pos() + n,
                )
                &&& final(self).spec_pos() == old(self).spec_pos() + n
            },
            old(self).spec_pos() + n > old(self).spec_data().len() ==> {
                &&& r == Err::<Vec<u8>, BitError>(BitError::UnexpectedEof)
                &&& final(self).spec_pos() == old(self).spec_pos()
            },
    {
        if n > self.data.len() - self.pos {
            return Err(BitError::UnexpectedEof);
        }
        let bytes = vstd::slice::slice_to_vec(
            vstd::slice::slice_subrange(self.data.as_slice(), self.pos, self.pos + n),
        );
        self.pos = self.pos + n;
        Ok(bytes)
    }

    /// Reads a 2-byte integer, least significant byte first.
    fn read_u16_le(&mut self) -> (r: Result<u16, BitError>)
        requires
            old(self).wf(),
        ensures
            final(self).wf(),
            final(self).spec_data() == old(self).spec_data(),
            final(self).spec_pos() == read_le(old(self).spec_data(), old(self).spec_pos(), 2).1,
            r matches Ok(v) ==> read_le(old(self).spec_data(), old(self).spec_pos(), 2).0 == Ok::<
                nat,
                BitError,
            >(v as nat),
            r matches Err(e) ==> read_le(old(self).spec_data(), old(self).spec_pos(), 2).0 == Err::<
                nat,
                BitError,
            >(e),
    {
        if 2 > self.data.len() - self.pos {
            return Err(BitError::UnexpectedEof);
        }
        let bytes = vstd::slice::slice_subrange(self.data.as_slice(), self.pos, self.pos + 2);
        let v = decode_u16_le(bytes);
        proof {
            assert(bytes@.take(2) =~= self.data@.subrange(self.pos as int, self.pos + 2));
        }
        self.pos = self.pos + 2;
        Ok(v)
    }

    /// Reads a 4-byte integer, least significant byte first.
    fn read_u32_le(&mut self) -> (r: Result<u32, BitError>)
        requires
            old(self).wf(),
        ensures
            final(self).wf(),
            final(self).spec_data() == old(self).spec_data(),
            final(self).spec_pos() == read_le(old(self).spec_data(), old(self).spec_pos(), 4).1,
            r matches Ok(v) ==> read_le(old(self).spec_data(), old(self).spec_pos(), 4).0 == Ok::<
                nat,
                BitError,
            >(v as nat),
            r matches Err(e) ==> read_le(old(self).spec_data(), old(self).spec_pos(), 4).0 == Err::<
                nat,
                BitError,
            >(e),
    {
        if 4 > self.data.len() - self.pos {
            return Err(BitError::UnexpectedEof);
        }
        let bytes = vstd::slice::slice_subrange(self.data.as_slice(), self.pos, self.pos + 4);
        let v = decode_u32_le(bytes);
        proof {
            assert(bytes@.take(4) =~= self.data@.subrange(self.pos as int, self.pos + 4));
        }
        self.pos = self.pos + 4;
        Ok(v)
    }

    /// Reads an 8-byte integer, least significant byte first.
    fn read_u64_le(&mut self) -> (r: Result<u64, BitError>)
        requires
            old(self).wf(),
        ensures
            final(self).wf(),
            final(self).spec_data() == old(self).spec_data(),
            final(self).spec_pos() == read_le(old(self).spec_data(), old(self).spec_pos(), 8).1,
            r matches Ok(v) ==> read_le(old(self).spec_data(), old(self).spec_pos(), 8).0 == Ok::<
                nat,
                BitError,
            >(v as nat),
            r matches Err(e) ==> read_le(old(self).spec_data(), old(self).spec_pos(), 8).0 == Err::<
                nat,
                BitError,
            >(e),
    {
        if 8 > self.data.len() - self.pos {
            return Err(BitError::UnexpectedEof);
        }
        let bytes = vstd::slice::slice_subrange(self.data.as_slice(), self.pos, self.pos + 8);
        let v = decode_u64_le(bytes);
        proof {
            assert(bytes@.take(8) =~= self.data@.subrange(self.pos as int, self.pos + 8));
        }
        self.pos = self.pos + 8;
        Ok(v)
    }
}

/// A value that can be written whole bytes at a time.
pub trait ByteAlignedSerialize: DeepView {
    /// The bytes that serializing `v` appends.
    spec fn spec_bytes(v: Self::V) -> Seq<u8>;

    /// The bytes of `v` describe it exactly: no length is cut to 32 bits.
    spec fn spec_byte_ok(v: Self::V) -> bool;

    /// Appends the value's bytes to `writer`; appending to a vector does not fail.
    fn byte_aligned_serialize(&self, writer: &mut Vec<u8>) -> (r: Result<(), BitError>)
        ensures
            final(writer)@ == old(writer)@ + Self::spec_bytes(self.deep_view()),
            r is Ok,
    ;
}

/// A value that can be read whole bytes at a time.
pub trait ByteAlignedDeserialize: Sized + ByteAlignedSerialize {
    /// What reading from `data` at `pos` returns, as a deep view, and where it stops.
    spec fn spec_byte_read(data: Seq<u8>, pos: nat) -> (Result<Self::V, BitError>, nat);

    /// Reads a value.
    fn byte_aligned_deserialize(reader: &mut ByteReader) -> (r: Result<Self, BitError>)
        requires
            old(reader).wf(),
        ensures
            final(reader).wf(),
            final(reader).spec_data() == old(reader).spec_data(),
            final(reader).spec_pos() == Self::spec_byte_read(
                old(reader).spec_data(),
                old(reader).spec_pos(),
            ).1,
            r matches Ok(v) ==> Self::spec_byte_read(
                old(reader).spec_data(),
                old(reader).spec_pos(),
            ).0 == Ok::<Self::V, BitError>(v.deep_view()),
            r matches Err(e) ==> Self::spec_byte_read(
                old(reader).spec_data(),
                old(reader).spec_pos(),
            ).0 == Err::<Self::V, BitError>(e),
    ;

    /// Wherever the bytes of a value stand, reading from their start returns the value
    /// and stops right after them.
    proof fn lemma_byte_roundtrip(v: Self::V, data: Seq<u8>, pos: nat)
        requires
            Self::spec_byte_ok(v),
            pos + Self::spec_bytes(v).len() <= data.len(),
            data.subrange(pos as int, (pos + Self::spec_bytes(v).len()) as int) == Self::spec_bytes(v),
        ensures
            Self::spec_byte_read(data, pos) == (
                Ok::<Self::V, BitError>(v),
                pos + Self::spec_bytes(v).len(),
            ),
    ;
}

/// Reading an `n`-byte integer where its bytes stand.
proof fn lemma_read_le_roundtrip(v: nat, n: nat, data: Seq<u8>, pos: nat)
    requires
        v < pow256(n),
        pos + n <= data.len(),
        data.subrange(pos as int, (pos + n) as int) == le_bytes(v, n),
    ensures
        read_le(data, pos, n) == (Ok::<nat, BitError>(v), pos + n),
{
    lemma_le_roundtrip(v, n);
}

impl ByteAlignedSerialize for u8 {
    /// The byte itself.
    open spec fn spec_bytes(v: u8) -> Seq<u8> {
        seq![v]
    }

    open spec fn spec_byte_ok(v: u8) -> bool {
        true
    }

    fn byte_aligned_serialize(&self, writer: &mut Vec<u8>) -> (r: Result<(), BitError>) {
        writer.push(*self);
        Ok(())
    }
}

impl ByteAlignedDeserialize for u8 {
    /// One byte.
    open spec fn spec_byte_read(data: Seq<u8>, pos: nat) -> (Result<u8, BitError>, nat) {
        if pos < data.len() {
            (Ok(data[pos as int]), pos + 1)
        } else {
            (Err(BitError::UnexpectedEof), pos)
        }
    }

    fn byte_aligned_deserialize(reader: &mut ByteReader) -> (r: Result<u8, BitError>) {
        reader.read_byte()
    }

    proof fn lemma_byte_roundtrip(v: u8, data: Seq<u8>, pos: nat) {
        assert(data.subrange(pos as int, (pos + 1) as int)[0] == data[pos as int]);
    }
}

impl ByteAlignedSerialize for i8 {
    /// The byte of the value's two's complement.
    open spec fn spec_bytes(v: i8) -> Seq<u8> {
        seq![v as u8]
    }

    open spec fn spec_byte_ok(v: i8) -> bool {
        true
    }

    fn byte_aligned_serialize(&self, writer: &mut Vec<u8>) -> (r: Result<(), BitError>) {
        writer.push(*self as u8);
        Ok(())
    }
}

impl ByteAlignedDeserialize for i8 {
    /// One byte, as two's complement.
    open spec fn spec_byte_read(data: Seq<u8>, pos: nat) -> (Result<i8, BitError>, nat) {
        if pos < data.len() {
            (Ok(data[pos as int] as i8), pos + 1)
        } else {
            (Err(BitError::UnexpectedEof), pos)
        }
    }

    fn byte_aligned_deserialize(reader: &mut ByteReader) -> (r: Result<i8, BitError>) {
        let b = reader.read_byte()?;
        Ok(b as i8)
    }

    proof fn lemma_byte_roundtrip(v: i8, data: Seq<u8>, pos: nat) {
        assert(data.subrange(pos as int, (pos + 1) as int)[0] == data[pos as int]);
        assert((v as u8) as i8 == v) by (bit_vector);
    }
}

impl ByteAlignedSerialize for bool {
    /// One byte: 1 for true, 0 for false.
    open spec fn spec_bytes(v: bool) -> Seq<u8> {
        seq![if v { 1u8 } else { 0u8 }]
    }

    open spec fn spec_byte_ok(v: bool) -> bool {
        true
    }

    fn byte_aligned_serialize(&self, writer: &mut Vec<u8>) -> (r: Result<(), BitError>) {
        writer.push(if *self { 1 } else { 0 });
        Ok(())
    }
}

impl ByteAlignedDeserialize for bool {
    /// One byte; anything but 0 is true.
    open spec fn spec_byte_read(data: Seq<u8>, pos: nat) -> (Result<bool, BitError>, nat) {
        if pos < data.len() {
            (Ok(data[pos as int] != 0), pos + 1)
        } else {
            (Err(BitError::UnexpectedEof), pos)
        }
    }

    fn byte_aligned_deserialize(reader: &mut ByteReader) -> (r: Result<bool, BitError>) {
        let b = reader.read_byte()?;
        Ok(b != 0)
    }

    proof fn lemma_byte_roundtrip(v: bool, data: Seq<u8>, pos: nat) {
        assert(data.subrange(pos as int, (pos + 1) as int)[0] == data[pos as int]);
    }
}

impl ByteAlignedSerialize for u16 {
    /// The 2 bytes, least significant first.
    open spec fn spec_bytes(v: u16) -> Seq<u8> {
        le_bytes(v as nat, 2)
    }

    open spec fn spec_byte_ok(v: u16) -> bool {
        true
    }

    fn byte_aligned_serialize(&self, writer: &mut Vec<u8>) -> (r: Result<(), BitError>) {
        append_u16_le(writer, *self);
        Ok(())
    }
}

impl ByteAlignedDeserialize for u16 {
    /// 2 bytes, least significant first.
    open spec fn spec_byte_read(data: Seq<u8>, pos: nat) -> (Result<u16, BitError>, nat) {
        let (r, p) = read_le(data, pos, 2);
        (
            match r {
                Ok(x) => Ok(x as u16),
                Err(e) => Err(e),
            },
            p,
        )
    }

    fn byte_aligned_deserialize(reader: &mut ByteReader) -> (r: Result<u16, BitError>) {
        reader.read_u16_le()
    }

    proof fn lemma_byte_roundtrip(v: u16, data: Seq<u8>, pos: nat) {
        lemma_pow256_values();
        lemma_le_roundtrip(v as nat, 2);
        lemma_read_le_roundtrip(v as nat, 2, data, pos);
    }
}

impl ByteAlignedSerialize for i16 {
    /// The 2 bytes of the value's two's complement, least significant first.
    open spec fn spec_bytes(v: i16) -> Seq<u8> {
        le_bytes((v as u16) as nat, 2)
    }

    open spec fn spec_byte_ok(v: i16) -> bool {
        true
    }

    fn byte_aligned_serialize(&self, writer: &mut Vec<u8>) -> (r: Result<(), BitError>) {
        append_u16_le(writer, *self as u16);
        Ok(())
    }
}

impl ByteAlignedDeserialize for i16 {
    /// 2 bytes, least significant first, as two's complement.
    open spec fn spec_byte_read(data: Seq<u8>, pos: nat) -> (Result<i16, BitError>, nat) {
        let (r, p) = read_le(data, pos, 2);
        (
            match r {
                Ok(x) => Ok((x as u16) as i16),
                Err(e) => Err(e),
            },
            p,
        )
    }

    fn byte_aligned_deserialize(reader: &mut ByteReader) -> (r: Result<i16, BitError>) {
        let x = reader.read_u16_le()?;
        Ok(x as i16)
    }

    proof fn lemma_byte_roundtrip(v: i16, data: Seq<u8>, pos: nat) {
        lemma_pow256_values();
        lemma_le_roundtrip((v as u16) as nat, 2);
        lemma_read_le_roundtrip((v as u16) as nat, 2, data, pos);
        assert((v as u16) as i16 == v) by (bit_vector);
    }
}

impl ByteAlignedSerialize for u32 {
    /// The 4 bytes, least significant first.
    open spec fn spec_bytes(v: u32) -> Seq<u8> {
        le_bytes(v as nat, 4)
    }

    open spec fn spec_byte_ok(v: u32) -> bool {
        true
    }

    fn byte_aligned_serialize(&self, writer: &mut Vec<u8>) -> (r: Result<(), BitError>) {
        append_u32_le(writer, *self);
        Ok(())
    }
}

impl ByteAlignedDeserialize for u32 {
    /// 4 bytes, least significant first.
    open spec fn spec_byte_read(data: Seq<u8>, pos: nat) -> (Result<u32, BitError>, nat) {
        let (r, p) = read_le(data, pos, 4);
        (
            match r {
                Ok(x) => Ok(x as u32),
                Err(e) => Err(e),
            },
            p,
        )
    }

    fn byte_aligned_deserialize(reader: &mut ByteReader) -> (r: Result<u32, BitError>) {
        reader.read_u32_le()
    }

    proof fn lemma_byte_roundtrip(v: u32, data: Seq<u8>, pos: nat) {
        lemma_pow256_values();
        lemma_le_roundtrip(v as nat, 4);
        lemma_read_le_roundtrip(v as nat, 4, data, pos);
    }
}

impl ByteAlignedSerialize for i32 {
    /// The 4 bytes of the value's two's complement, least significant first.
    open spec fn spec_bytes(v: i32) -> Seq<u8> {
        le_bytes((v as u32) as nat, 4)
    }

    open spec fn spec_byte_ok(v: i32) -> bool {
        true
    }

    fn byte_aligned_serialize(&self, writer: &mut Vec<u8>) -> (r: Result<(), BitError>) {
        append_u32_le(writer, *self as u32);
        Ok(())
    }
}

impl ByteAlignedDeserialize for i32 {
    /// 4 bytes, least significant first, as two's complement.
    open spec fn spec_byte_read(data: Seq<u8>, pos: nat) -> (Result<i32, BitError>, nat) {
        let (r, p) = read_le(data, pos, 4);
        (
            match r {
                Ok(x) => Ok((x as u32) as i32),
                Err(e) => Err(e),
            },
            p,
        )
    }

    fn byte_aligned_deserialize(reader: &mut ByteReader) -> (r: Result<i32, BitError>) {
        let x = reader.read_u32_le()?;
        Ok(x as i32)
    }

    proof fn lemma_byte_roundtrip(v: i32, data: Seq<u8>, pos: nat) {
        lemma_pow256_values();
        lemma_le_roundtrip((v as u32) as nat, 4);
        lemma_read_le_roundtrip((v as u32) as nat, 4, data, pos);
        assert((v as u32) as i32 == v) by (bit_vector);
    }
}

impl ByteAlignedSerialize for u64 {
    /// The 8 bytes, least significant first.
    open spec fn spec_bytes(v: u64) -> Seq<u8> {
        le_bytes(v as nat, 8)
    }

    open spec fn spec_byte_ok(v: u64) -> bool {
        true
    }

    fn byte_aligned_serialize(&self, writer: &mut Vec<u8>) -> (r: Result<(), BitError>) {
        append_u64_le(writer, *self);
        Ok(())
    }
}

impl ByteAlignedDeserialize for u64 {
    /// 8 bytes, least significant first.
    open spec fn spec_byte_read(data: Seq<u8>, pos: nat) -> (Result<u64, BitError>, nat) {
        let (r, p) = read_le(data, pos, 8);
        (
            match r {
                Ok(x) => Ok(x as u64),
                Err(e) => Err(e),
            },
            p,
        )
    }

    fn byte_aligned_deserialize(reader: &mut ByteReader) -> (r: Result<u64, BitError>) {
        reader.read_u64_le()
    }

    proof fn lemma_byte_roundtrip(v: u64, data: Seq<u8>, pos: nat) {
        lemma_pow256_values();
        lemma_le_roundtrip(v as nat, 8);
        lemma_read_le_roundtrip(v as nat, 8, data, pos);
    }
}

impl ByteAlignedSerialize for i64 {
    /// The 8 bytes of the value's two's complement, least significant first.
    open spec fn spec_bytes(v: i64) -> Seq<u8> {
        le_bytes((v as u64) as nat, 8)
    }

    open spec fn spec_byte_ok(v: i64) -> bool {
        true
    }

    fn byte_aligned_serialize(&self, writer: &mut Vec<u8>) -> (r: Result<(), BitError>) {
        append_u64_le(writer, *self as u64);
        Ok(())
    }
}

impl ByteAlignedDeserialize for i64 {
    /// 8 bytes, least significant first, as two's complement.
    open spec fn spec_byte_read(data: Seq<u8>, pos: nat) -> (Result<i64, BitError>, nat) {
        let (r, p) = read_le(data, pos, 8);
        (
            match r {
                Ok(x) => Ok((x as u64) as i64),
                Err(e) => Err(e),
            },
            p,
        )
    }

    fn byte_aligned_deserialize(reader: &mut ByteReader) -> (r: Result<i64, BitError>) {
        let x = reader.read_u64_le()?;
        Ok(x as i64)
    }

    proof fn lemma_byte_roundtrip(v: i64, data: Seq<u8>, pos: nat) {
        lemma_pow256_values();
        lemma_le_roundtrip((v as u64) as nat, 8);
        lemma_read_le_roundtrip((v as u64) as nat, 8, data, pos);
        assert((v as u64) as i64 == v) by (bit_vector);
    }
}

// ---------------------------------------------------------------------------
// Runs of values.
// ---------------------------------------------------------------------------

/// The bytes of values one after another.
pub open spec fn items_bytes<T: ByteAlignedSerialize>(items: Seq<T::V>) -> Seq<u8>
    decreases items.len(),
{
    if items.len() == 0 {
        Seq::empty()
    } else {
        items_bytes::<T>(items.drop_last()) + T::spec_bytes(items.last())
    }
}

/// Every value of a run is described exactly by its bytes.
pub open spec fn all_byte_ok<T: ByteAlignedSerialize>(items: Seq<T::V>) -> bool {
    forall|i: int| 0 <= i < items.len() ==> #[trigger] T::spec_byte_ok(items[i])
}

/// What reading `k` values one after another from `pos` returns, and where it stops.
pub open spec fn read_byte_items<T: ByteAlignedDeserialize>(data: Seq<u8>, pos: nat, k: nat) -> (
    Result<Seq<T::V>, BitError>,
    nat,
)
    decreases k,
{
    if k == 0 {
        (Ok(Seq::empty()), pos)
    } else {
        let (r, p) = read_byte_items::<T>(data, pos, (k - 1) as nat);
        match r {
            Ok(xs) => {
                let (r2, p2) = T::spec_byte_read(data, p);
                match r2 {
                    Ok(x) => (Ok(xs.push(x)), p2),
                    Err(e) => (Err(e), p2),
                }
            },
            Err(e) => (Err(e), p),
        }
    }
}

/// One more value of a run.
proof fn lemma_items_bytes_step<T: ByteAlignedSerialize>(items: Seq<T::V>, i: int)
    requires
        0 <= i < items.len(),
    ensures
        items_bytes::<T>(items.take(i + 1)) == items_bytes::<T>(items.take(i)) + T::spec_bytes(
            items[i],
        ),
{
    assert(items.take(i + 1).drop_last() =~= items.take(i));
    assert(items.take(i + 1).last() == items[i]);
}

/// Once reading a run fails, reading more of it returns the same failure.
proof fn lemma_read_byte_items_failure<T: ByteAlignedDeserialize>(
    data: Seq<u8>,
    pos: nat,
    k: nat,
    j: nat,
)
    requires
        k <= j,
        read_byte_items::<T>(data, pos, k).0 is Err,
    ensures
        read_byte_items::<T>(data, pos, j) == read_byte_items::<T>(data, pos, k),
    decreases j,
{
    if j > k {
        lemma_read_byte_items_failure::<T>(data, pos, k, (j - 1) as nat);
    }
}

/// A successful read of `k` values returns `k` values.
proof fn lemma_read_byte_items_len<T: ByteAlignedDeserialize>(data: Seq<u8>, pos: nat, k: nat)
    ensures
        read_byte_items::<T>(data, pos, k).0 matches Ok(xs) ==> xs.len() == k,
    decreases k,
{
    if k > 0 {
        lemma_read_byte_items_len::<T>(data, pos, (k - 1) as nat);
    }
}

/// Reading back a run of values where their bytes stand.
proof fn lemma_read_byte_items_roundtrip<T: ByteAlignedDeserialize>(
    items: Seq<T::V>,
    data: Seq<u8>,
    pos: nat,
)
    requires
        all_byte_ok::<T>(items),
        pos + items_bytes::<T>(items).len() <= data.len(),
        data.subrange(pos as int, (pos + items_bytes::<T>(items).len()) as int) == items_bytes::<T>(
            items,
        ),
    ensures
        read_byte_items::<T>(data, pos, items.len()) == (
            Ok::<Seq<T::V>, BitError>(items),
            pos + items_bytes::<T>(items).len(),
        ),
    decreases items.len(),
{
    if items.len() > 0 {
        let init = items.drop_last();
        let x = items.last();
        let a = items_bytes::<T>(init);
        let b = T::spec_bytes(x);
        assert(all_byte_ok::<T>(init));
        assert(T::spec_byte_ok(x)) by {
            assert(items[items.len() - 1] == x);
        }
        assert(items_bytes::<T>(items) == a + b);
        assert(data.subrange(pos as int, pos as int + a.len()) =~= a) by {
            assert(data.subrange(pos as int, pos as int + a.len()) =~= data.subrange(
                pos as int,
                pos as int + a.len() + b.len(),
            ).subrange(0, a.len() as int));
        }
        lemma_read_byte_items_roundtrip::<T>(init, data, pos);
        assert(data.subrange(pos as int + a.len(), pos as int + a.len() + b.len()) =~= b) by {
            assert(data.subrange(pos as int + a.len(), pos as int + a.len() + b.len()) =~= data.subrange(
                pos as int,
                pos as int + a.len() + b.len(),
            ).subrange(a.len() as int, a.len() + b.len() as int));
        }
        T::lemma_byte_roundtrip(x, data, pos + a.len());
        assert(init.push(x) =~= items);
        assert(((items.len() - 1) as nat) == init.len());
    } else {
        assert(items =~= Seq::<T::V>::empty());
    }
}

/// Appends the values one after another.
fn serialize_byte_items<T: ByteAlignedSerialize>(items: &[T], writer: &mut Vec<u8>)
    ensures
        final(writer)@ == old(writer)@ + items_bytes::<T>(items.deep_view()),
{
    let ghost dv = items.deep_view();
    let ghost w0 = writer@;
    let mut i: usize = 0;
    proof {
        assert(dv.take(0) =~= Seq::<T::V>::empty());
        assert(w0 + Seq::<u8>::empty() =~= w0);
    }
    while i < items.len()
        invariant
            dv == items.deep_view(),
            dv.len() == items.len(),
            i <= items.len(),
            w0 == old(writer)@,
            writer@ == w0 + items_bytes::<T>(dv.take(i as int)),
        decreases items.len() - i,
    {
        proof {
            lemma_items_bytes_step::<T>(dv, i as int);
            assert(dv[i as int] == items@[i as int].deep_view());
        }
        let ghost before = writer@;
        let _ = items[i].byte_aligned_serialize(writer);
        proof {
            assert(writer@ =~= w0 + items_bytes::<T>(dv.take(i + 1)));
        }
        i = i + 1;
    }
    proof {
        assert(dv.take(i as int) =~= dv);
    }
}

/// Reads `len` values one after another.
fn deserialize_byte_items<T: ByteAlignedDeserialize>(reader: &mut ByteReader, len: usize) -> (r:
    Result<Vec<T>, BitError>)
    requires
        old(reader).wf(),
    ensures
        final(reader).wf(),
        final(reader).spec_data() == old(reader).spec_data(),
        final(reader).spec_pos() == read_byte_items::<T>(
            old(reader).spec_data(),
            old(reader).spec_pos(),
            len as nat,
        ).1,
        r matches Ok(v) ==> read_byte_items::<T>(
            old(reader).spec_data(),
            old(reader).spec_pos(),
            len as nat,
        ).0 == Ok::<Seq<T::V>, BitError>(v.deep_view()),
        r matches Err(e) ==> read_byte_items::<T>(
            old(reader).spec_data(),
            old(reader).spec_pos(),
            len as nat,
        ).0 == Err::<Seq<T::V>, BitError>(e),
{
    let ghost data = reader.spec_data();
    let ghost p0 = reader.spec_pos();
    let mut vec: Vec<T> = Vec::new();
    let mut i: usize = 0;
    proof {
        assert(vec.deep_view() =~= Seq::<T::V>::empty());
    }
    while i < len
        invariant
            i <= len,
            reader.wf(),
            reader.spec_data() == data,
            data == old(reader).spec_data(),
            p0 == old(reader).spec_pos(),
            reader.spec_pos() == read_byte_items::<T>(data, p0, i as nat).1,
            read_byte_items::<T>(data, p0, i as nat).0 == Ok::<Seq<T::V>, BitError>(
                vec.deep_view(),
            ),
        decreases len - i,
    {
        proof {
            assert(((i + 1) - 1) as nat == i as nat);
        }
        match T::byte_aligned_deserialize(reader) {
            Ok(item) => {
                let ghost old_dv = vec.deep_view();
                vec.push(item);
                proof {
                    assert(vec.deep_view() =~= old_dv.push(item.deep_view()));
                }
            },
            Err(e) => {
                proof {
                    lemma_read_byte_items_failure::<T>(data, p0, (i + 1) as nat, len as nat);
                }
                return Err(e);
            },
        }
        i = i + 1;
    }
    Ok(vec)
}

// ---------------------------------------------------------------------------
// Optional values.
// ---------------------------------------------------------------------------

impl<T: ByteAlignedSerialize> ByteAlignedSerialize for Option<T> {
    /// A byte 1 and the value, or a byte 0.
    open spec fn spec_bytes(v: Option<T::V>) -> Seq<u8> {
        match v {
            Some(x) => seq![1u8] + T::spec_bytes(x),
            None => seq![0u8],
        }
    }

    open spec fn spec_byte_ok(v: Option<T::V>) -> bool {
        match v {
            Some(x) => T::spec_byte_ok(x),
            None => true,
        }
    }

    fn byte_aligned_serialize(&self, writer: &mut Vec<u8>) -> (r: Result<(), BitError>) {
        match self {
            Some(value) => {
                writer.push(1);
                let ghost mid = writer@;
                let _ = value.byte_aligned_serialize(writer);
                proof {
                    assert(writer@ =~= old(writer)@ + (seq![1u8] + T::spec_bytes(value.deep_view())));
                }
            },
            None => {
                writer.push(0);
            },
        }
        Ok(())
    }
}

impl<T: ByteAlignedDeserialize> ByteAlignedDeserialize for Option<T> {
    /// A flag byte; anything but 0 is followed by the value.
    open spec fn spec_byte_read(data: Seq<u8>, pos: nat) -> (Result<Option<T::V>, BitError>, nat) {
        if pos < data.len() {
            if data[pos as int] != 0 {
                let (r, p) = T::spec_byte_read(data, pos + 1);
                (
                    match r {
                        Ok(x) => Ok(Some(x)),
                        Err(e) => Err(e),
                    },
                    p,
                )
            } else {
                (Ok(None), pos + 1)
            }
        } else {
            (Err(BitError::UnexpectedEof), pos)
        }
    }

    fn byte_aligned_deserialize(reader: &mut ByteReader) -> (r: Result<Option<T>, BitError>) {
        let flag = reader.read_byte()?;
        if flag != 0 {
            let value = T::byte_aligned_deserialize(reader)?;
            Ok(Some(value))
        } else {
            Ok(None)
        }
    }

    proof fn lemma_byte_roundtrip(v: Option<T::V>, data: Seq<u8>, pos: nat) {
        let b = Self::spec_bytes(v);
        assert(data.subrange(pos as int, pos as int + b.len())[0] == data[pos as int]);
        match v {
            Some(x) => {
                let xb = T::spec_bytes(x);
                assert(data.subrange(pos as int + 1, pos as int + 1 + xb.len()) =~= data.subrange(
                    pos as int,
                    pos as int + b.len(),
                ).subrange(1, b.len() as int));
                assert(b.subrange(1, b.len() as int) =~= xb);
                T::lemma_byte_roundtrip(x, data, pos + 1);
            },
            None => {},
        }
    }
}

// ---------------------------------------------------------------------------
// Pairs.
// ---------------------------------------------------------------------------

/// The bytes `a` then `b` at `pos` give each part back where it stands.
proof fn lemma_split_bytes(data: Seq<u8>, pos: nat, a: Seq<u8>, b: Seq<u8>)
    requires
        pos + a.len() + b.len() <= data.len(),
        data.subrange(pos as int, pos as int + a.len() + b.len()) == a + b,
    ensures
        data.subrange(pos as int, pos as int + a.len()) == a,
        data.subrange(pos as int + a.len(), pos as int + a.len() + b.len()) == b,
{
    assert(data.subrange(pos as int, pos as int + a.len()) =~= (a + b).subrange(0, a.len() as int));
    assert(data.subrange(pos as int + a.len(), pos as int + a.len() + b.len()) =~= (a + b).subrange(
        a.len() as int,
        a.len() + b.len() as int,
    ));
}

impl<T: ByteAlignedSerialize, U: ByteAlignedSerialize> ByteAlignedSerialize for (T, U) {
    /// The first value, then the second.
    open spec fn spec_bytes(v: (T::V, U::V)) -> Seq<u8> {
        T::spec_bytes(v.0) + U::spec_bytes(v.1)
    }

    open spec fn spec_byte_ok(v: (T::V, U::V)) -> bool {
        T::spec_byte_ok(v.0) && U::spec_byte_ok(v.1)
    }

    fn byte_aligned_serialize(&self, writer: &mut Vec<u8>) -> (r: Result<(), BitError>) {
        let _ = self.0.byte_aligned_serialize(writer);
        let _ = self.1.byte_aligned_serialize(writer);
        proof {
            assert(writer@ =~= old(writer)@ + Self::spec_bytes(self.deep_view()));
        }
        Ok(())
    }
}

impl<T: ByteAlignedDeserialize, U: ByteAlignedDeserialize> ByteAlignedDeserialize for (T, U) {
    /// The first value, then the second.
    open spec fn spec_byte_read(data: Seq<u8>, pos: nat) -> (Result<(T::V, U::V), BitError>, nat) {
        let (r1, p1) = T::spec_byte_read(data, pos);
        match r1 {
            Ok(a) => {
                let (r2, p2) = U::spec_byte_read(data, p1);
                match r2 {
                    Ok(b) => (Ok((a, b)), p2),
                    Err(e) => (Err(e), p2),
                }
            },
            Err(e) => (Err(e), p1),
        }
    }

    fn byte_aligned_deserialize(reader: &mut ByteReader) -> (r: Result<(T, U), BitError>) {
        let a = T::byte_aligned_deserialize(reader)?;
        let b = U::byte_aligned_deserialize(reader)?;
        Ok((a, b))
    }

    proof fn lemma_byte_roundtrip(v: (T::V, U::V), data: Seq<u8>, pos: nat) {
        let a = T::spec_bytes(v.0);
        let b = U::spec_bytes(v.1);
        lemma_split_bytes(data, pos, a, b);
        T::lemma_byte_roundtrip(v.0, data, pos);
        U::lemma_byte_roundtrip(v.1, data, pos + a.len());
    }
}

impl<T: ByteAlignedSerialize, U: ByteAlignedSerialize, W: ByteAlignedSerialize> ByteAlignedSerialize for (
    T,
    U,
    W,
) {
    /// The three values in order.
    open spec fn spec_bytes(v: (T::V, U::V, W::V)) -> Seq<u8> {
        T::spec_bytes(v.0) + U::spec_bytes(v.1) + W::spec_bytes(v.2)
    }

    open spec fn spec_byte_ok(v: (T::V, U::V, W::V)) -> bool {
        T::spec_byte_ok(v.0) && U::spec_byte_ok(v.1) && W::spec_byte_ok(v.2)
    }

    fn byte_aligned_serialize(&self, writer: &mut Vec<u8>) -> (r: Result<(), BitError>) {
        let _ = self.0.byte_aligned_serialize(writer);
        let _ = self.1.byte_aligned_serialize(writer);
        let _ = self.2.byte_aligned_serialize(writer);
        proof {
            assert(writer@ =~= old(writer)@ + Self::spec_bytes(self.deep_view()));
        }
        Ok(())
    }
}

impl<
    T: ByteAlignedDeserialize,
    U: ByteAlignedDeserialize,
    W: ByteAlignedDeserialize,
> ByteAlignedDeserialize for (T, U, W) {
    /// The three values in order.
    open spec fn spec_byte_read(data: Seq<u8>, pos: nat) -> (
        Result<(T::V, U::V, W::V), BitError>,
        nat,
    ) {
        let (r1, p1) = <(T, U)>::spec_byte_read(data, pos);
        match r1 {
            Ok(ab) => {
                let (r2, p2) = W::spec_byte_read(data, p1);
                match r2 {
                    Ok(c) => (Ok((ab.0, ab.1, c)), p2),
                    Err(e) => (Err(e), p2),
                }
            },
            Err(e) => (Err(e), p1),
        }
    }

    fn byte_aligned_deserialize(reader: &mut ByteReader) -> (r: Result<(T, U, W), BitError>) {
        let a = T::byte_aligned_deserialize(reader)?;
        let b = U::byte_aligned_deserialize(reader)?;
        let c = W::byte_aligned_deserialize(reader)?;
        Ok((a, b, c))
    }

    proof fn lemma_byte_roundtrip(v: (T::V, U::V, W::V), data: Seq<u8>, pos: nat) {
        let ab = T::spec_bytes(v.0) + U::spec_bytes(v.1);
        let c = W::spec_bytes(v.2);
        lemma_split_bytes(data, pos, ab, c);
        <(T, U)>::lemma_byte_roundtrip((v.0, v.1), data, pos);
        W::lemma_byte_roundtrip(v.2, data, pos + ab.len());
    }
}

impl<
    T: ByteAlignedSerialize,
    U: ByteAlignedSerialize,
    W: ByteAlignedSerialize,
    X: ByteAlignedSerialize,
> ByteAlignedSerialize for (T, U, W, X) {
    /// The four values in order.
    open spec fn spec_bytes(v: (T::V, U::V, W::V, X::V)) -> Seq<u8> {
        T::spec_bytes(v.0) + U::spec_bytes(v.1) + W::spec_bytes(v.2) + X::spec_bytes(v.3)
    }

    open spec fn spec_byte_ok(v: (T::V, U::V, W::V, X::V)) -> bool {
        T::spec_byte_ok(v.0) && U::spec_byte_ok(v.1) && W::spec_byte_ok(v.2) && X::spec_byte_ok(
            v.3,
        )
    }

    fn byte_aligned_serialize(&self, writer: &mut Vec<u8>) -> (r: Result<(), BitError>) {
        let _ = self.0.byte_aligned_serialize(writer);
        let _ = self.1.byte_aligned_serialize(writer);
        let _ = self.2.byte_aligned_serialize(writer);
        let _ = self.3.byte_aligned_serialize(writer);
        proof {
            assert(writer@ =~= old(writer)@ + Self::spec_bytes(self.deep_view()));
        }
        Ok(())
    }
}

impl<
    T: ByteAlignedDeserialize,
    U: ByteAlignedDeserialize,
    W: ByteAlignedDeserialize,
    X: ByteAlignedDeserialize,
> ByteAlignedDeserialize for (T, U, W, X) {
    /// The four values in order.
    open spec fn spec_byte_read(data: Seq<u8>, pos: nat) -> (
        Result<(T::V, U::V, W::V, X::V), BitError>,
        nat,
    ) {
        let (r1, p1) = <(T, U, W)>::spec_byte_read(data, pos);
        match r1 {
            Ok(abc) => {
                let (r2, p2) = X::spec_byte_read(data, p1);
                match r2 {
                    Ok(d) => (Ok((abc.0, abc.1, abc.2, d)), p2),
                    Err(e) => (Err(e), p2),
                }
            },
            Err(e) => (Err(e), p1),
        }
    }

    fn byte_aligned_deserialize(reader: &mut ByteReader) -> (r: Result<(T, U, W, X), BitError>) {
        let a = T::byte_aligned_deserialize(reader)?;
        let b = U::byte_aligned_deserialize(reader)?;
        let c = W::byte_aligned_deserialize(reader)?;
        let d = X::byte_aligned_deserialize(reader)?;
        Ok((a, b, c, d))
    }

    proof fn lemma_byte_roundtrip(v: (T::V, U::V, W::V, X::V), data: Seq<u8>, pos: nat) {
        let abc = T::spec_bytes(v.0) + U::spec_bytes(v.1) + W::spec_bytes(v.2);
        let d = X::spec_bytes(v.3);
        lemma_split_bytes(data, pos, abc, d);
        <(T, U, W)>::lemma_byte_roundtrip((v.0, v.1, v.2), data, pos);
        X::lemma_byte_roundtrip(v.3, data, pos + abc.len());
    }
}

// ---------------------------------------------------------------------------
// Vectors, strings and arrays.
// ---------------------------------------------------------------------------

impl<T: ByteAlignedSerialize> ByteAlignedSerialize for Vec<T> {
    /// The number of items as 4 bytes (cut to 32 bits), then the items.
    open spec fn spec_bytes(v: Seq<T::V>) -> Seq<u8> {
        le_bytes((v.len() as u32) as nat, 4) + items_bytes::<T>(v)
    }

    open spec fn spec_byte_ok(v: Seq<T::V>) -> bool {
        v.len() <= u32::MAX && all_byte_ok::<T>(v)
    }

    fn byte_aligned_serialize(&self, writer: &mut Vec<u8>) -> (r: Result<(), BitError>) {
        append_u32_le(writer, self.len() as u32);
        let items = self.as_slice();
        proof {
            assert(items.deep_view() =~= self.deep_view());
        }
        serialize_byte_items(items, writer);
        proof {
            assert(writer@ =~= old(writer)@ + Self::spec_bytes(self.deep_view()));
        }
        Ok(())
    }
}

impl<T: ByteAlignedDeserialize> ByteAlignedDeserialize for Vec<T> {
    /// A 4-byte count, then that many items.
    open spec fn spec_byte_read(data: Seq<u8>, pos: nat) -> (Result<Seq<T::V>, BitError>, nat) {
        let (r, p) = read_le(data, pos, 4);
        match r {
            Ok(n) => read_byte_items::<T>(data, p, n),
            Err(e) => (Err(e), p),
        }
    }

    fn byte_aligned_deserialize(reader: &mut ByteReader) -> (r: Result<Vec<T>, BitError>) {
        let len = reader.read_u32_le()?;
        deserialize_byte_items(reader, len as usize)
    }

    proof fn lemma_byte_roundtrip(v: Seq<T::V>, data: Seq<u8>, pos: nat) {
        let n = (v.len() as u32) as nat;
        let a = le_bytes(n, 4);
        let b = items_bytes::<T>(v);
        lemma_pow256_values();
        lemma_le_roundtrip(n, 4);
        lemma_split_bytes(data, pos, a, b);
        lemma_read_le_roundtrip(n, 4, data, pos);
        lemma_read_byte_items_roundtrip::<T>(v, data, pos + 4);
    }
}

impl ByteAlignedSerialize for String {
    /// The number of UTF-8 bytes as 4 bytes (cut to 32 bits), then the bytes.
    open spec fn spec_bytes(v: Seq<char>) -> Seq<u8> {
        le_bytes((utf8_bytes(v).len() as u32) as nat, 4) + utf8_bytes(v)
    }

    open spec fn spec_byte_ok(v: Seq<char>) -> bool {
        utf8_bytes(v).len() <= u32::MAX
    }

    fn byte_aligned_serialize(&self, writer: &mut Vec<u8>) -> (r: Result<(), BitError>) {
        let bytes = self.as_str().as_bytes();
        append_u32_le(writer, bytes.len() as u32);
        let mut copy = vstd::slice::slice_to_vec(bytes);
        writer.append(&mut copy);
        Ok(())
    }
}

impl ByteAlignedDeserialize for String {
    /// A 4-byte count, then that many bytes, which must be valid UTF-8.
    open spec fn spec_byte_read(data: Seq<u8>, pos: nat) -> (Result<Seq<char>, BitError>, nat) {
        let (r, p) = read_le(data, pos, 4);
        match r {
            Ok(n) => if p + n <= data.len() {
                let bytes = data.subrange(p as int, (p + n) as int);
                if vstd::utf8::valid_utf8(bytes) {
                    (Ok(vstd::utf8::decode_utf8(bytes)), p + n)
                } else {
                    (Err(BitError::InvalidData), p + n)
                }
            } else {
                (Err(BitError::UnexpectedEof), p)
            },
            Err(e) => (Err(e), p),
        }
    }

    fn byte_aligned_deserialize(reader: &mut ByteReader) -> (r: Result<String, BitError>) {
        let len = reader.read_u32_le()?;
        let bytes = reader.read_exact(len as usize)?;
        match string_from_utf8(bytes) {
            Some(s) => Ok(s),
            None => Err(BitError::InvalidData),
        }
    }

    proof fn lemma_byte_roundtrip(v: Seq<char>, data: Seq<u8>, pos: nat) {
        let b = utf8_bytes(v);
        let n = (b.len() as u32) as nat;
        let a = le_bytes(n, 4);
        lemma_pow256_values();
        lemma_le_roundtrip(n, 4);
        lemma_split_bytes(data, pos, a, b);
        lemma_read_le_roundtrip(n, 4, data, pos);
        vstd::utf8::encode_utf8_valid_utf8(v);
        vstd::utf8::encode_utf8_decode_utf8(v);
    }
}

impl<T: ByteAlignedSerialize, const N: usize> ByteAlignedSerialize for [T; N] {
    /// The items one after another, with no count.
    open spec fn spec_bytes(v: Seq<T::V>) -> Seq<u8> {
        items_bytes::<T>(v)
    }

    open spec fn spec_byte_ok(v: Seq<T::V>) -> bool {
        v.len() == N && all_byte_ok::<T>(v)
    }

    fn byte_aligned_serialize(&self, writer: &mut Vec<u8>) -> (r: Result<(), BitError>) {
        let items = self.as_slice();
        proof {
            assert(items.deep_view() =~= self.deep_view());
        }
        serialize_byte_items(items, writer);
        Ok(())
    }
}

impl<T: ByteAlignedDeserialize, const N: usize> ByteAlignedDeserialize for [T; N] {
    /// `N` items one after another.
    open spec fn spec_byte_read(data: Seq<u8>, pos: nat) -> (Result<Seq<T::V>, BitError>, nat) {
        read_byte_items::<T>(data, pos, N as nat)
    }

    fn byte_aligned_deserialize(reader: &mut ByteReader) -> (r: Result<[T; N], BitError>) {
        let items: Vec<T> = deserialize_byte_items(reader, N)?;
        proof {
            lemma_read_byte_items_len::<T>(old(reader).spec_data(), old(reader).spec_pos(), N as nat);
        }
        let array: [T; N] = array_from_vec(items);
        proof {
            assert(array.deep_view() =~= items.deep_view());
        }
        Ok(array)
    }

    proof fn lemma_byte_roundtrip(v: Seq<T::V>, data: Seq<u8>, pos: nat) {
        lemma_read_byte_items_roundtrip::<T>(v, data, pos);
    }
}

/// Reading back what serializing a value wrote gives the value back: appended to any
/// bytes, the value's bytes read from where they start return the value and stop at their
/// end.
pub proof fn lemma_byte_aligned_roundtrip<T: ByteAlignedDeserialize>(v: T::V, before: Seq<u8>)
    requires
        T::spec_byte_ok(v),
    ensures
        T::spec_byte_read(before + T::spec_bytes(v), before.len()) == (
            Ok::<T::V, BitError>(v),
            before.len() + T::spec_bytes(v).len(),
        ),
{
    let data = before + T::spec_bytes(v);
    assert(data.subrange(before.len() as int, data.len() as int) =~= T::spec_bytes(v));
    T::lemma_byte_roundtrip(v, data, before.len());
}

} // verus!
