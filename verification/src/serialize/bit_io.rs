//! A growable buffer of bits, written and read most significant bit first.
use vstd::prelude::*;
use vstd::arithmetic::power2::pow2;

verus! {

/// Why a bit-level operation failed.
#[derive(Debug, Clone, Copy, PartialEq, Eq, Structural)]
pub enum BitError {
    /// A request that can never succeed, such as more than 64 bits at once.
    InvalidInput,
    /// The reader ran past the last byte.
    UnexpectedEof,
    /// The bits do not describe a value of the requested type.
    InvalidData,
}

// ---------------------------------------------------------------------------
// The bit model.
// ---------------------------------------------------------------------------

/// Bit `j` of byte `b`, counting from the most significant bit (`j == 0`).
pub open spec fn byte_bit(b: u8, j: int) -> bool {
    (b >> ((7 - j) as u8)) & 1u8 == 1u8
}

/// The bits of a byte sequence, each byte most significant bit first.
pub open spec fn bits_of(bytes: Seq<u8>) -> Seq<bool> {
    Seq::new(8 * bytes.len(), |q: int| byte_bit(bytes[q / 8], q % 8))
}

/// Bit `t` of `v`, counting from the least significant bit.
pub open spec fn u64_bit(v: u64, t: int) -> bool {
    (v >> (t as u64)) & 1u64 == 1u64
}

/// The low `n` bits of `v`, most significant first.
pub open spec fn value_bits(v: u64, n: nat) -> Seq<bool> {
    Seq::new(n, |i: int| u64_bit(v, n - 1 - i))
}

/// The unsigned number that a sequence of bits spells out, most significant first.
pub open spec fn bits_to_nat(s: Seq<bool>) -> nat
    decreases s.len(),
{
    if s.len() == 0 {
        0
    } else {
        2 * bits_to_nat(s.drop_last()) + (if s.last() { 1nat } else { 0nat })
    }
}

/// `n` zero bits.
pub open spec fn zero_bits(n: nat) -> Seq<bool> {
    Seq::new(n, |i: int| false)
}

/// Number of bytes needed to hold `bits` bits.
pub open spec fn bytes_for(bits: nat) -> nat {
    ((bits + 7) / 8) as nat
}

/// `bits` padded with zero bytes so that bit position `pos` exists.
pub open spec fn extend_to(bits: Seq<bool>, pos: nat) -> Seq<bool> {
    if pos < bits.len() {
        bits
    } else {
        bits + zero_bits((8 * bytes_for(pos + 1) - bits.len()) as nat)
    }
}

/// The first `m` bits as the characters `0` and `1`, a space between each group of eight.
pub open spec fn bit_text(bits: Seq<bool>, m: nat) -> Seq<char>
    decreases m,
{
    if m == 0 {
        Seq::empty()
    } else {
        let prev = bit_text(bits, (m - 1) as nat);
        let sep = if m - 1 > 0 && (m - 1) % 8 == 0 {
            seq![' ']
        } else {
            Seq::empty()
        };
        prev + sep + seq![if bits[m - 1] { '1' } else { '0' }]
    }
}

/// Appends a character to a string (`String::push`).
#[verifier::external_body]
fn push_char(s: &mut String, c: char)
    ensures
        final(s)@ == old(s)@.push(c),
{
    s.push(c);
}

/// The abstract state of a [`BitBuffer`].
pub struct BitState {
    /// The stored bits: the stored bytes, each most significant bit first.
    pub bits: Seq<bool>,
    /// Where the next write lands, in bits.
    pub write_pos: nat,
    /// Where the next read starts, in bits.
    pub read_pos: nat,
    /// Bits written so far.
    pub unpadded: nat,
}

impl BitState {
    /// The stored bits.
    pub open spec fn bits(self) -> Seq<bool> {
        self.bits
    }

    /// The invariant that every buffer keeps.
    pub open spec fn wf(self) -> bool {
        &&& self.unpadded == self.write_pos
        &&& self.bits.len() % 8 == 0
        &&& self.write_pos / 8 <= self.bits.len() / 8
        &&& self.read_pos <= self.bits.len()
    }

    /// The state of a buffer that has only been written to: it holds exactly the bytes
    /// that the written bits touch, and the bits after the write position are zero.
    pub open spec fn is_compact(self) -> bool {
        &&& self.bits.len() == 8 * bytes_for(self.write_pos)
        &&& forall|q: int| self.write_pos <= q < self.bits().len() ==> !#[trigger] self.bits()[q]
    }

    /// The bits that have been written, up to the write position.
    pub open spec fn written(self) -> Seq<bool> {
        self.bits().take(self.write_pos as int)
    }

    /// The bits after a single-bit write.
    pub open spec fn bits_after_write_bit(self, bit: bool) -> Seq<bool> {
        extend_to(self.bits(), self.write_pos).update(self.write_pos as int, bit)
    }

    /// The bits after a write of the low `n` bits of `v`, `0 < n <= 64`.
    /// A write of whole bytes at a byte boundary appends after the last stored byte;
    /// any other write merges (ors) its bits into the stored bits at the write position.
    pub open spec fn bits_after_write_bits(self, v: u64, n: nat) -> Seq<bool> {
        let p = self.write_pos;
        if p % 8 == 0 && n % 8 == 0 {
            self.bits() + value_bits(v, n)
        } else {
            let base = extend_to(self.bits(), (p + n - 1) as nat);
            Seq::new(
                base.len(),
                |q: int| base[q] || (p <= q < p + n && value_bits(v, n)[q - p]),
            )
        }
    }

    /// The write position rounded up to a byte boundary.
    pub open spec fn padded_pos(self) -> nat {
        8 * bytes_for(self.write_pos)
    }

    /// The bits after padding the write position to a byte boundary with zero bits.
    pub open spec fn bits_after_pad(self) -> Seq<bool> {
        if self.write_pos % 8 == 0 {
            self.bits()
        } else {
            let base = extend_to(self.bits(), self.write_pos);
            Seq::new(
                base.len(),
                |q: int| if self.write_pos <= q < self.padded_pos() { false } else { base[q] },
            )
        }
    }

    /// The read position after a read of `n` bits, `0 < n <= 64`, that ran past the end:
    /// a read of whole bytes at a byte boundary stays where it was, any other read stops
    /// at the end of the stored bits.
    pub open spec fn read_pos_after_short_read(self, n: nat) -> nat {
        if self.read_pos % 8 == 0 && n % 8 == 0 {
            self.read_pos
        } else {
            self.bits().len()
        }
    }
}

/// A buffer of bits with separate write and read positions.
pub struct BitBuffer {
    buffer: Vec<u8>,
    bit_pos: usize,
    read_pos: usize,
    unpadded_length: usize,
}

impl View for BitBuffer {
    type V = BitState;

    closed spec fn view(&self) -> BitState {
        BitState {
            bits: bits_of(self.buffer@),
            write_pos: self.bit_pos as nat,
            read_pos: self.read_pos as nat,
            unpadded: self.unpadded_length as nat,
        }
    }
}

// ---------------------------------------------------------------------------
// Lemmas on single bits.
// ---------------------------------------------------------------------------

proof fn lemma_byte_set_bit(b: u8, j: u8, k: u8)
    requires
        j < 8,
        k < 8,
    ensures
        ((b | (1u8 << (7 - j) as u8)) >> (7 - k) as u8) & 1u8 == 1u8 <==> (k == j || (b >> (7
            - k) as u8) & 1u8 == 1u8),
        ((b & !(1u8 << (7 - j) as u8)) >> (7 - k) as u8) & 1u8 == 1u8 <==> (k != j && (b >> (7
            - k) as u8) & 1u8 == 1u8),
{
    assert(((b | (1u8 << (7 - j) as u8)) >> (7 - k) as u8) & 1u8 == 1u8 <==> (k == j || (b >> (7
        - k) as u8) & 1u8 == 1u8)) by (bit_vector)
        requires
            j < 8,
            k < 8,
    ;
    assert(((b & !(1u8 << (7 - j) as u8)) >> (7 - k) as u8) & 1u8 == 1u8 <==> (k != j && (b >> (7
        - k) as u8) & 1u8 == 1u8)) by (bit_vector)
        requires
            j < 8,
            k < 8,
    ;
}

proof fn lemma_zero_byte_bits(k: u8)
    requires
        k < 8,
    ensures
        (0u8 >> (7 - k) as u8) & 1u8 != 1u8,
{
    assert((0u8 >> (7 - k) as u8) & 1u8 != 1u8) by (bit_vector);
}

/// Pushing a zero byte extends the bits with eight zeros.
proof fn lemma_bits_push_zero(bytes: Seq<u8>)
    ensures
        bits_of(bytes.push(0u8)) == bits_of(bytes) + zero_bits(8),
{
    let a = bits_of(bytes.push(0u8));
    let b = bits_of(bytes) + zero_bits(8);
    assert forall|q: int| 0 <= q < a.len() implies a[q] == b[q] by {
        if q >= 8 * bytes.len() {
            assert(q / 8 == bytes.len());
            lemma_zero_byte_bits((q % 8) as u8);
        } else {
            assert(q / 8 < bytes.len());
        }
    }
    assert(a =~= b);
}

/// Replacing one byte changes only the bits of that byte.
proof fn lemma_bits_update(bytes: Seq<u8>, i: int, x: u8, q: int)
    requires
        0 <= i < bytes.len(),
        0 <= q < 8 * bytes.len(),
    ensures
        bits_of(bytes.update(i, x))[q] == (if q / 8 == i {
            byte_bit(x, q % 8)
        } else {
            bits_of(bytes)[q]
        }),
{
}



/// Pushing a byte appends its eight bits.
proof fn lemma_bits_push(bytes: Seq<u8>, x: u8)
    ensures
        bits_of(bytes.push(x)) == bits_of(bytes) + Seq::new(8, |j: int| byte_bit(x, j)),
{
    let a = bits_of(bytes.push(x));
    let b = bits_of(bytes) + Seq::new(8, |j: int| byte_bit(x, j));
    assert forall|q: int| 0 <= q < a.len() implies a[q] == b[q] by {
        if q >= 8 * bytes.len() {
            assert(q / 8 == bytes.len());
        } else {
            assert(q / 8 < bytes.len());
        }
    }
    assert(a =~= b);
}

proof fn lemma_shr1_bit(w: u64, t: u64)
    requires
        t < 63,
    ensures
        ((w >> 1u64) >> t) & 1u64 == (w >> (t + 1) as u64) & 1u64,
{
    assert(((w >> 1u64) >> t) & 1u64 == (w >> (t + 1) as u64) & 1u64) by (bit_vector)
        requires
            t < 63,
    ;
}

/// A number below `2^n` is the number that its low `n` bits spell out.
pub proof fn lemma_bits_to_nat_value_bits(w: u64, n: nat)
    requires
        n <= 64,
        n < 64 ==> w >> (n as u64) == 0,
    ensures
        bits_to_nat(value_bits(w, n)) == w,
    decreases n,
{
    if n == 0 {
        assert(w >> 0u64 == 0 ==> w == 0) by (bit_vector);
    } else {
        let s = value_bits(w, n);
        let h = w >> 1u64;
        let m = (n - 1) as nat;
        assert forall|i: int| 0 <= i < m implies s.drop_last()[i] == value_bits(h, m)[i] by {
            lemma_shr1_bit(w, (m - 1 - i) as u64);
        }
        assert(s.drop_last() =~= value_bits(h, m));
        if n < 64 {
            let nn = n as u64;
            assert(w >> nn == 0 ==> (w >> 1u64) >> ((nn - 1) as u64) == 0) by (bit_vector)
                requires
                    0 < nn < 64,
            ;
        } else {
            assert((w >> 1u64) >> 63u64 == 0) by (bit_vector);
        }
        lemma_bits_to_nat_value_bits(h, m);
        assert(s.last() == ((w >> 0u64) & 1u64 == 1u64));
        assert(2 * (w >> 1u64) + (if (w >> 0u64) & 1u64 == 1u64 { 1u64 } else { 0u64 }) == w)
            by (bit_vector);
    }
}

/// Masking `v` to its low `n` bits keeps those bits.
proof fn lemma_mask_keeps_low_bits(v: u64, n: u64, t: u64)
    requires
        t < n < 64,
    ensures
        ((v & ((1u64 << n) - 1) as u64) >> t) & 1u64 == (v >> t) & 1u64,
        (v & ((1u64 << n) - 1) as u64) >> n == 0,
{
    assert(((v & ((1u64 << n) - 1) as u64) >> t) & 1u64 == (v >> t) & 1u64) by (bit_vector)
        requires
            t < n < 64,
    ;
    assert((v & ((1u64 << n) - 1) as u64) >> n == 0) by (bit_vector)
        requires
            n < 64,
    ;
}

/// The byte at offset `s` of a 64-bit value holds eight consecutive bits of it.
proof fn lemma_value_byte_bit(v: u64, s: u64, j: u64)
    requires
        s <= 56,
        j < 8,
    ensures
        ((((v >> s) & 0xffu64) as u8) >> (7 - j) as u8) & 1u8 == 1u8 <==> (v >> (s + 7 - j) as u64)
            & 1u64 == 1u64,
{
    assert(((((v >> s) & 0xffu64) as u8) >> (7 - j) as u8) & 1u8 == 1u8 <==> (v >> (s + 7
        - j) as u64) & 1u64 == 1u64) by (bit_vector)
        requires
            s <= 56,
            j < 8,
    ;
}

/// Or-ing a chunk of `k` bits into a byte at bit offset `off` (counted from the most
/// significant bit) sets exactly the chunk's one bits.
proof fn lemma_or_chunk(b: u8, c: u64, off: u64, k: u64, j: u64)
    requires
        1 <= k,
        off + k <= 8,
        c < (1u64 << k),
        j < 8,
    ensures
        ((b | ((c as u8) << (8 - off - k) as u8)) >> (7 - j) as u8) & 1u8 == 1u8 <==> ((b >> (7
            - j) as u8) & 1u8 == 1u8 || (off <= j < off + k && (c >> (off + k - 1 - j) as u64)
            & 1u64 == 1u64)),
{
    assert(((b | ((c as u8) << (8 - off - k) as u8)) >> (7 - j) as u8) & 1u8 == 1u8 <==> ((b >> (7
        - j) as u8) & 1u8 == 1u8 || (off <= j < off + k && (c >> (off + k - 1 - j) as u64) & 1u64
        == 1u64))) by (bit_vector)
        requires
            1 <= k,
            off + k <= 8,
            c < (1u64 << k),
            j < 8,
    ;
}

/// The chunk taken from `val` at `shift` holds its bits `shift..shift + k`.
proof fn lemma_chunk_bits(val: u64, shift: u64, k: u64, t: u64)
    requires
        1 <= k <= 8,
        shift + k <= 64,
        t < k,
    ensures
        (((val >> shift) & ((1u64 << k) - 1) as u64) >> t) & 1u64 == (val >> (shift + t) as u64)
            & 1u64,
        ((val >> shift) & ((1u64 << k) - 1) as u64) < (1u64 << k),
{
    assert((((val >> shift) & ((1u64 << k) - 1) as u64) >> t) & 1u64 == (val >> (shift
        + t) as u64) & 1u64) by (bit_vector)
        requires
            1 <= k <= 8,
            shift + k <= 64,
            t < k,
    ;
    assert(((val >> shift) & ((1u64 << k) - 1) as u64) < (1u64 << k)) by (bit_vector)
        requires
            1 <= k <= 8,
    ;
}


/// Or-ing one chunk of the value into its byte extends the written range by the chunk.
proof fn lemma_write_chunk(
    mid: Seq<u8>,
    byte_pos: int,
    new_byte: u8,
    c: u64,
    val: u64,
    value: u64,
    shift: u64,
    k: u64,
    off: u64,
    p0: int,
    bp: int,
    bits: int,
    remaining: int,
    old_bits: Seq<bool>,
)
    requires
        0 <= byte_pos < mid.len(),
        1 <= k <= 8,
        off + k <= 8,
        bp == 8 * byte_pos + off,
        1 <= bits <= 64,
        k <= remaining <= bits,
        shift == remaining - k,
        bp == p0 + bits - remaining,
        0 <= p0,
        c == (val >> shift) & ((1u64 << k) - 1) as u64,
        new_byte == mid[byte_pos] | ((c as u8) << (8 - off - k) as u8),
        forall|t: int| 0 <= t < remaining ==> u64_bit(val, t) == u64_bit(value, t),
        bits_of(mid) == Seq::new(
            8 * mid.len(),
            |q: int|
                (q < old_bits.len() && old_bits[q]) || (p0 <= q < bp && value_bits(
                    value,
                    bits as nat,
                )[q - p0]),
        ),
    ensures
        bits_of(mid.update(byte_pos, new_byte)) == Seq::new(
            8 * mid.len(),
            |q: int|
                (q < old_bits.len() && old_bits[q]) || (p0 <= q < bp + k && value_bits(
                    value,
                    bits as nat,
                )[q - p0]),
        ),
{
    let vb = value_bits(value, bits as nat);
    let nb = mid.update(byte_pos, new_byte);
    let old_byte = mid[byte_pos];
    let expect = Seq::new(
        8 * nb.len(),
        |q: int| (q < old_bits.len() && old_bits[q]) || (p0 <= q < bp + k && vb[q - p0]),
    );
    lemma_chunk_bits(val, shift, k, 0);
    assert forall|q: int| 0 <= q < 8 * nb.len() implies bits_of(nb)[q] == expect[q] by {
        lemma_bits_update(mid, byte_pos, new_byte, q);
        let old_part = (q < old_bits.len() && old_bits[q]);
        assert(bits_of(mid)[q] == (old_part || (p0 <= q < bp && vb[q - p0])));
        if q / 8 == byte_pos {
            let j = (q % 8) as u64;
            assert(bits_of(mid)[q] == byte_bit(old_byte, j as int));
            assert(bits_of(nb)[q] == byte_bit(new_byte, j as int));
            lemma_or_chunk(old_byte, c, off, k, j);
            assert(q == bp - off + j);
            if off <= j < off + k {
                let t = (off + k - 1 - j) as u64;
                lemma_chunk_bits(val, shift, k, t);
                assert(q - p0 == bits - remaining + j - off);
                assert(u64_bit(val, shift + t) == u64_bit(value, shift + t));
                assert(vb[q - p0] == u64_bit(value, shift + t));
                assert(byte_bit(new_byte, j as int) == (byte_bit(old_byte, j as int) || u64_bit(
                    val,
                    shift + t,
                )));
            } else {
                assert(byte_bit(new_byte, j as int) == byte_bit(old_byte, j as int));
            }
        } else {
            assert(bits_of(nb)[q] == bits_of(mid)[q]);
            assert(q < bp || q >= bp + k);
        }
    }
    assert(bits_of(nb) =~= expect);
}


/// Or-ing a byte into a value at bit `s` sets the value's bits `s..s + 8` to the byte's.
proof fn lemma_or_byte(value: u64, byte: u8, s: u64, t: u64)
    requires
        s <= 56,
        t < 64,
    ensures
        ((value | ((byte as u64) << s)) >> t) & 1u64 == 1u64 <==> ((value >> t) & 1u64 == 1u64 || (s
            <= t < s + 8 && (byte >> (t - s) as u8) & 1u8 == 1u8)),
{
    assert(((value | ((byte as u64) << s)) >> t) & 1u64 == 1u64 <==> ((value >> t) & 1u64 == 1u64
        || (s <= t < s + 8 && (byte >> (t - s) as u8) & 1u8 == 1u8))) by (bit_vector)
        requires
            s <= 56,
            t < 64,
    ;
}

/// Or-ing a `k`-bit chunk of a byte, taken at `off` from its most significant bit, into a
/// value at bit `rs` sets the value's bits `rs..rs + k` to the chunk's.
proof fn lemma_or_read_chunk(value: u64, byte: u8, off: u8, k: u8, mask: u8, rs: u64, t: u64)
    requires
        1 <= k,
        off + k <= 8,
        mask == (if k >= 8 {
            0xffu8
        } else {
            ((1u8 << k) - 1) as u8
        }),
        rs + k <= 64,
        t < 64,
    ensures
        ((value | ((((byte >> (8 - off - k) as u8) & mask) as u64) << rs)) >> t) & 1u64 == 1u64
            <==> ((value >> t) & 1u64 == 1u64 || (rs <= t < rs + k && (byte >> (7 - (off + k - 1
            - (t - rs))) as u8) & 1u8 == 1u8)),
{
    assert(((value | ((((byte >> (8 - off - k) as u8) & mask) as u64) << rs)) >> t) & 1u64 == 1u64
        <==> ((value >> t) & 1u64 == 1u64 || (rs <= t < rs + k && (byte >> (7 - (off + k - 1 - (t
        - rs))) as u8) & 1u8 == 1u8))) by (bit_vector)
        requires
            1 <= k,
            off + k <= 8,
            mask == (if k >= 8 {
                0xffu8
            } else {
                ((1u8 << k) - 1) as u8
            }),
            rs + k <= 64,
            t < 64,
    ;
}

/// A value whose bits at and above `n` are clear is below `2^n`.
proof fn lemma_high_bits_clear(value: u64, n: u64)
    requires
        n < 64,
        forall|t: u64| n <= t < 64 ==> (value >> t) & 1u64 != 1u64,
    ensures
        value >> n == 0,
{
    assert forall|u: u64| u < (64 - n) as u64 implies #[trigger] ((value >> n) >> u) & 1u64
        != 1u64 by {
        let t = (n + u) as u64;
        assert(((value >> n) >> u) & 1u64 == (value >> t) & 1u64) by (bit_vector)
            requires
                n + u < 64,
                t == n + u,
        ;
        assert((value >> t) & 1u64 != 1u64);
    }
    if n > 0 {
        assert((value >> n) >> (64 - n) as u64 == 0) by (bit_vector)
            requires
                0 < n < 64,
        ;
    }
    lemma_zero_from_bits(value >> n, (64 - n) as u64);
}

/// A value whose low `m` bits are all clear, and whose higher bits are clear too, is zero.
proof fn lemma_zero_from_bits(x: u64, m: u64)
    requires
        m <= 64,
        forall|u: u64| u < m ==> #[trigger] (x >> u) & 1u64 != 1u64,
        m < 64 ==> x >> m == 0,
    ensures
        x == 0,
    decreases m,
{
    if m == 0 {
        assert(x >> 0u64 == 0 ==> x == 0) by (bit_vector);
    } else {
        let mm = (m - 1) as u64;
        assert((x >> mm) & 1u64 != 1u64);
        if m < 64 {
            assert(x >> m == 0 && (x >> mm) & 1u64 != 1u64 ==> x >> mm == 0) by (bit_vector)
                requires
                    0 < m < 64,
                    mm == m - 1,
            ;
        } else {
            assert((x >> mm) & 1u64 != 1u64 ==> x >> mm == 0) by (bit_vector)
                requires
                    mm == 63,
            ;
        }
        lemma_zero_from_bits(x, mm);
    }
}


/// A value whose bits are exactly those of `s`, read most significant first, is the
/// number that `s` spells out.
proof fn lemma_read_result(value: u64, s: Seq<bool>)
    requires
        1 <= s.len() <= 64,
        forall|t: u64|
            t < 64 ==> (#[trigger] u64_bit(value, t as int) <==> (t < s.len() && s[s.len() - 1
                - t])),
    ensures
        value == bits_to_nat(s),
{
    let n = s.len();
    assert forall|i: int| 0 <= i < n implies value_bits(value, n)[i] == s[i] by {
        let t = (n - 1 - i) as u64;
        assert(u64_bit(value, t as int) <==> s[s.len() - 1 - t]);
    }
    assert(value_bits(value, n) =~= s);
    if n < 64 {
        assert forall|t: u64| (n as u64) <= t < 64 implies (value >> t) & 1u64 != 1u64 by {
            assert(!u64_bit(value, t as int));
        }
        lemma_high_bits_clear(value, n as u64);
    }
    lemma_bits_to_nat_value_bits(value, n);
}


/// One write to a bit buffer.
pub enum BitOp {
    /// A single bit, written with [`BitWrite::write_bit`].
    Bit(bool),
    /// The low bits of a value, written with [`BitWrite::write_bits`].
    Bits(u64, nat),
}

/// The bits that a write appends to a compact buffer.
pub open spec fn op_bits(op: BitOp) -> Seq<bool> {
    match op {
        BitOp::Bit(b) => seq![b],
        BitOp::Bits(v, n) => if n <= 64 {
            value_bits(v, n)
        } else {
            Seq::empty()
        },
    }
}

/// The bits that a run of writes appends to a compact buffer.
pub open spec fn ops_bits(ops: Seq<BitOp>) -> Seq<bool>
    decreases ops.len(),
{
    if ops.len() == 0 {
        Seq::empty()
    } else {
        op_bits(ops[0]) + ops_bits(ops.drop_first())
    }
}

/// Every write of a run is one that the buffer accepts.
pub open spec fn ops_valid(ops: Seq<BitOp>) -> bool {
    forall|i: int|
        0 <= i < ops.len() ==> match #[trigger] ops[i] {
            BitOp::Bit(_) => true,
            BitOp::Bits(_, n) => n <= 64,
        }
}

impl BitState {
    /// The state after [`BitWrite::write_bit`].
    pub open spec fn after_write_bit(self, bit: bool) -> BitState {
        BitState {
            bits: self.bits_after_write_bit(bit),
            write_pos: self.write_pos + 1,
            read_pos: self.read_pos,
            unpadded: self.unpadded + 1,
        }
    }

    /// The state after [`BitWrite::write_bits`] of the low `n` bits of `v`.
    pub open spec fn after_write_bits(self, v: u64, n: nat) -> BitState {
        if n == 0 || n > 64 {
            self
        } else {
            BitState {
                bits: self.bits_after_write_bits(v, n),
                write_pos: self.write_pos + n,
                read_pos: self.read_pos,
                unpadded: self.unpadded + n,
            }
        }
    }

    /// The state after one write.
    pub open spec fn after_op(self, op: BitOp) -> BitState {
        match op {
            BitOp::Bit(b) => self.after_write_bit(b),
            BitOp::Bits(v, n) => self.after_write_bits(v, n),
        }
    }

    /// The state after a run of writes, in order.
    pub open spec fn after_ops(self, ops: Seq<BitOp>) -> BitState
        decreases ops.len(),
    {
        if ops.len() == 0 {
            self
        } else {
            self.after_op(ops[0]).after_ops(ops.drop_first())
        }
    }

    /// What [`BitRead::read_bit`] returns, and the state after it.
    pub open spec fn read_bit_result(self) -> (Result<bool, BitError>, BitState) {
        if self.read_pos < self.bits.len() {
            (Ok(self.bits[self.read_pos as int]), BitState { read_pos: self.read_pos + 1, ..self })
        } else {
            (Err(BitError::UnexpectedEof), self)
        }
    }

    /// What [`BitRead::read_bits`] of `n` bits returns, and the state after it.
    pub open spec fn read_bits_result(self, n: nat) -> (Result<u64, BitError>, BitState) {
        if n > 64 {
            (Err(BitError::InvalidInput), self)
        } else if n == 0 {
            (Ok(0), self)
        } else if self.read_pos + n <= self.bits.len() {
            (
                Ok(
                    bits_to_nat(
                        self.bits.subrange(self.read_pos as int, (self.read_pos + n) as int),
                    ) as u64,
                ),
                BitState { read_pos: self.read_pos + n, ..self },
            )
        } else {
            (
                Err(BitError::UnexpectedEof),
                BitState { read_pos: self.read_pos_after_short_read(n), ..self },
            )
        }
    }

    /// The same bits, read from position `r`.
    pub open spec fn reading_at(self, r: nat) -> BitState {
        BitState { read_pos: r, ..self }
    }
}

/// A number spelled out by at most 64 bits fits in a `u64`.
pub proof fn lemma_bits_to_nat_bound(s: Seq<bool>)
    ensures
        bits_to_nat(s) < pow2(s.len()),
    decreases s.len(),
{
    if s.len() > 0 {
        vstd::arithmetic::power2::lemma_pow2_unfold(s.len());
        lemma_bits_to_nat_bound(s.drop_last());
    } else {
        vstd::arithmetic::power2::lemma2_to64();
    }
}

/// Reading back the low `n` bits of `v` gives `v` modulo `2^n`.
pub proof fn lemma_bits_to_nat_of_value(v: u64, n: nat)
    requires
        n <= 64,
    ensures
        bits_to_nat(value_bits(v, n)) == v as nat % pow2(n),
{
    if n == 64 {
        lemma_bits_to_nat_value_bits(v, 64);
        vstd::arithmetic::power2::lemma2_to64_rest();
    } else {
        let w = v & ((1u64 << n as u64) - 1) as u64;
        assert forall|i: int| 0 <= i < n implies value_bits(w, n)[i] == value_bits(v, n)[i] by {
            lemma_mask_keeps_low_bits(v, n as u64, (n - 1 - i) as u64);
        }
        assert(value_bits(w, n) =~= value_bits(v, n));
        if n > 0 {
            lemma_mask_keeps_low_bits(v, n as u64, 0);
        } else {
            assert(w == 0) by (bit_vector)
                requires
                    w == v & ((1u64 << 0u64) - 1) as u64,
            ;
            assert(w >> 0u64 == 0) by (bit_vector)
                requires
                    w == 0,
            ;
        }
        lemma_bits_to_nat_value_bits(w, n);
        vstd::bits::lemma_u64_pow2_no_overflow(n);
        vstd::bits::lemma_u64_shl_is_mul(1, n as u64);
        vstd::bits::lemma_u64_low_bits_mask_is_mod(v, n);
    }
}

/// In a compact buffer, one write appends its bits and keeps the buffer compact.
pub proof fn lemma_compact_after_op(s: BitState, op: BitOp)
    requires
        s.wf(),
        s.is_compact(),
        op matches BitOp::Bits(_, n) ==> n <= 64,
    ensures
        s.after_op(op).wf(),
        s.after_op(op).is_compact(),
        s.after_op(op).written() == s.written() + op_bits(op),
        s.after_op(op).write_pos == s.write_pos + op_bits(op).len(),
        s.after_op(op).read_pos == s.read_pos,
{
    let p = s.write_pos;
    let t = s.after_op(op);
    match op {
        BitOp::Bit(b) => {
            let base = extend_to(s.bits, p);
            if p >= s.bits.len() {
                assert(p == s.bits.len());
            }
            assert(base.len() == 8 * bytes_for(p + 1));
            assert(t.written() =~= s.written() + seq![b]);
        },
        BitOp::Bits(v, n) => {
            if n > 0 {
                if p % 8 == 0 && n % 8 == 0 {
                    assert(s.bits.len() == p);
                    assert(t.written() =~= s.written() + value_bits(v, n));
                } else {
                    let base = extend_to(s.bits, (p + n - 1) as nat);
                    assert(base.len() == 8 * bytes_for(p + n));
                    assert(t.written() =~= s.written() + value_bits(v, n));
                }
            } else {
                assert(value_bits(v, 0) =~= Seq::<bool>::empty());
                assert(s.written() + value_bits(v, 0) =~= s.written());
            }
        },
    }
}

/// In a compact buffer, a run of writes appends their bits and keeps the buffer compact.
pub proof fn lemma_compact_after_ops(s: BitState, ops: Seq<BitOp>)
    requires
        s.wf(),
        s.is_compact(),
        ops_valid(ops),
    ensures
        s.after_ops(ops).wf(),
        s.after_ops(ops).is_compact(),
        s.after_ops(ops).written() == s.written() + ops_bits(ops),
        s.after_ops(ops).write_pos == s.write_pos + ops_bits(ops).len(),
        s.after_ops(ops).read_pos == s.read_pos,
    decreases ops.len(),
{
    if ops.len() == 0 {
        assert(s.written() + ops_bits(ops) =~= s.written());
    } else {
        assert(ops_valid(ops.drop_first())) by {
            assert forall|i: int| 0 <= i < ops.drop_first().len() implies match #[trigger] ops.drop_first()[i] {
                BitOp::Bit(_) => true,
                BitOp::Bits(_, n) => n <= 64,
            } by {
                assert(ops.drop_first()[i] == ops[i + 1]);
            }
        }
        let first = ops[0];
        assert(match ops[0] {
            BitOp::Bit(_) => true,
            BitOp::Bits(_, n) => n <= 64,
        });
        lemma_compact_after_op(s, first);
        lemma_compact_after_ops(s.after_op(first), ops.drop_first());
        assert(s.written() + op_bits(first) + ops_bits(ops.drop_first()) =~= s.written()
            + ops_bits(ops));
    }
}

/// Padding a compact buffer changes no stored bit.
pub proof fn lemma_compact_pad(s: BitState)
    requires
        s.wf(),
        s.is_compact(),
    ensures
        s.bits_after_pad() == s.bits(),
        s.padded_pos() == s.bits().len(),
{
    if s.write_pos % 8 != 0 {
        assert(s.write_pos < s.bits.len());
        assert(s.bits_after_pad() =~= s.bits());
    }
}


impl BitState {
    /// A state that reads of up to 64 bits can always be made from.
    pub open spec fn readable(self) -> bool {
        self.wf() && self.bits.len() + 64 <= usize::MAX
    }
}

/// The bits of two runs of writes, one after the other.
pub proof fn lemma_ops_bits_append(a: Seq<BitOp>, b: Seq<BitOp>)
    ensures
        ops_bits(a + b) == ops_bits(a) + ops_bits(b),
    decreases a.len(),
{
    if a.len() == 0 {
        assert(a + b =~= b);
        assert(ops_bits(a) + ops_bits(b) =~= ops_bits(b));
    } else {
        assert((a + b).drop_first() =~= a.drop_first() + b);
        lemma_ops_bits_append(a.drop_first(), b);
        assert(ops_bits(a) + ops_bits(b) =~= op_bits(a[0]) + (ops_bits(a.drop_first())
            + ops_bits(b)));
    }
}

/// Two runs of writes, one after the other.
pub proof fn lemma_after_ops_append(s: BitState, a: Seq<BitOp>, b: Seq<BitOp>)
    ensures
        s.after_ops(a + b) == s.after_ops(a).after_ops(b),
    decreases a.len(),
{
    if a.len() == 0 {
        assert(a + b =~= b);
    } else {
        assert((a + b).drop_first() =~= a.drop_first() + b);
        assert((a + b)[0] == a[0]);
        lemma_after_ops_append(s.after_op(a[0]), a.drop_first(), b);
    }
}

/// Any write keeps the invariant and advances the write position by its bits.
pub proof fn lemma_after_op(s: BitState, op: BitOp)
    requires
        s.wf(),
    ensures
        s.after_op(op).wf(),
        s.after_op(op).write_pos == s.write_pos + op_bits(op).len(),
        s.after_op(op).read_pos == s.read_pos,
        s.after_op(op).bits.len() >= s.bits.len(),
{
    let p = s.write_pos;
    match op {
        BitOp::Bit(b) => {
            let base = extend_to(s.bits, p);
            if p >= s.bits.len() {
                assert(p / 8 == s.bits.len() / 8);
                assert(base.len() == s.bits.len() + 8);
            }
        },
        BitOp::Bits(v, n) => {
            if 0 < n <= 64 && !(p % 8 == 0 && n % 8 == 0) {
                let base = extend_to(s.bits, (p + n - 1) as nat);
                if (p + n - 1) as nat >= s.bits.len() {
                    assert(base.len() == 8 * bytes_for((p + n) as nat));
                }
            }
        },
    }
}

/// Any run of writes keeps the invariant and advances the write position by its bits.
pub proof fn lemma_after_ops(s: BitState, ops: Seq<BitOp>)
    requires
        s.wf(),
    ensures
        s.after_ops(ops).wf(),
        s.after_ops(ops).write_pos == s.write_pos + ops_bits(ops).len(),
        s.after_ops(ops).read_pos == s.read_pos,
        s.after_ops(ops).bits.len() >= s.bits.len(),
    decreases ops.len(),
{
    if ops.len() > 0 {
        lemma_after_op(s, ops[0]);
        lemma_after_ops(s.after_op(ops[0]), ops.drop_first());
    }
}

/// Two bytes with the same bits are the same byte.
proof fn lemma_byte_bits_injective(a: u8, b: u8)
    requires
        forall|j: int| 0 <= j < 8 ==> byte_bit(a, j) == byte_bit(b, j),
    ensures
        a == b,
{
    assert(byte_bit(a, 0) == byte_bit(b, 0));
    assert(byte_bit(a, 1) == byte_bit(b, 1));
    assert(byte_bit(a, 2) == byte_bit(b, 2));
    assert(byte_bit(a, 3) == byte_bit(b, 3));
    assert(byte_bit(a, 4) == byte_bit(b, 4));
    assert(byte_bit(a, 5) == byte_bit(b, 5));
    assert(byte_bit(a, 6) == byte_bit(b, 6));
    assert(byte_bit(a, 7) == byte_bit(b, 7));
    assert(((a >> 7u8) & 1u8 == 1u8) == ((b >> 7u8) & 1u8 == 1u8) && ((a >> 6u8) & 1u8 == 1u8) == ((
    b >> 6u8) & 1u8 == 1u8) && ((a >> 5u8) & 1u8 == 1u8) == ((b >> 5u8) & 1u8 == 1u8) && ((a >> 4u8)
        & 1u8 == 1u8) == ((b >> 4u8) & 1u8 == 1u8) && ((a >> 3u8) & 1u8 == 1u8) == ((b >> 3u8) & 1u8
        == 1u8) && ((a >> 2u8) & 1u8 == 1u8) == ((b >> 2u8) & 1u8 == 1u8) && ((a >> 1u8) & 1u8
        == 1u8) == ((b >> 1u8) & 1u8 == 1u8) && ((a >> 0u8) & 1u8 == 1u8) == ((b >> 0u8) & 1u8
        == 1u8) ==> a == b) by (bit_vector);
}

/// Bytes are determined by their bits.
pub proof fn lemma_bits_of_injective(a: Seq<u8>, b: Seq<u8>)
    requires
        bits_of(a) == bits_of(b),
    ensures
        a == b,
{
    assert(a.len() == b.len()) by {
        assert(bits_of(a).len() == 8 * a.len());
        assert(bits_of(b).len() == 8 * b.len());
        assert(bits_of(a).len() == bits_of(b).len());
    }
    assert forall|i: int| 0 <= i < a.len() implies a[i] == b[i] by {
        assert forall|j: int| 0 <= j < 8 implies byte_bit(a[i], j) == byte_bit(b[i], j) by {
            let q = 8 * i + j;
            assert(q / 8 == i && q % 8 == j);
            assert(0 <= q < 8 * a.len());
            assert(bits_of(a)[q] == byte_bit(a[q / 8], q % 8));
            assert(bits_of(b)[q] == byte_bit(b[q / 8], q % 8));
            assert(bits_of(a)[q] == bits_of(b)[q]);
        }
        lemma_byte_bits_injective(a[i], b[i]);
    }
    assert(a =~= b);
}

/// The bits of two byte runs, one after the other.
pub proof fn lemma_bits_of_append(a: Seq<u8>, b: Seq<u8>)
    ensures
        bits_of(a + b) == bits_of(a) + bits_of(b),
{
    assert forall|q: int| 0 <= q < bits_of(a + b).len() implies bits_of(a + b)[q] == (bits_of(a)
        + bits_of(b))[q] by {
        if q < 8 * a.len() {
            assert(q / 8 < a.len());
        } else {
            let q2 = q - 8 * a.len();
            assert(q / 8 == q2 / 8 + a.len());
            assert(q % 8 == q2 % 8);
        }
    }
    assert(bits_of(a + b) =~= bits_of(a) + bits_of(b));
}

// ---------------------------------------------------------------------------
// Writer and reader interfaces.
// ---------------------------------------------------------------------------

/// Something that bits can be written to.
pub trait BitWrite {
    /// The writer can take `bits` more bits without its position overflowing.
    spec fn spec_write_room(&self, bits: nat) -> bool;

    /// Writes one bit.
    fn write_bit(&mut self, bit: bool) -> (r: Result<(), BitError>)
        requires
            old(self).spec_write_room(1),
    ;

    /// Writes the low `bits` bits of `value`, most significant first.
    fn write_bits(&mut self, value: u64, bits: usize) -> (r: Result<(), BitError>)
        requires
            old(self).spec_write_room(if bits <= 64 { bits as nat } else { 0 }),
    ;

    /// The write position, in bits.
    spec fn spec_write_position(&self) -> nat;

    /// The write position, in bits.
    fn bit_pos(&self) -> (r: usize)
        ensures
            r == self.spec_write_position(),
    ;
}

/// Something that bits can be read from.
pub trait BitRead {
    /// The reader can advance by `bits` more bits without its position overflowing.
    spec fn spec_read_room(&self, bits: nat) -> bool;

    /// Reads one bit.
    fn read_bit(&mut self) -> (r: Result<bool, BitError>)
        requires
            old(self).spec_read_room(1),
    ;

    /// Reads `bits` bits, most significant first, into the low bits of the result.
    fn read_bits(&mut self, bits: usize) -> (r: Result<u64, BitError>)
        requires
            old(self).spec_read_room(if bits <= 64 { bits as nat } else { 0 }),
    ;

    /// The read position, in bits.
    spec fn spec_read_position(&self) -> nat;

    /// The read position, in bits.
    fn bit_pos(&self) -> (r: usize)
        ensures
            r == self.spec_read_position(),
    ;
}

// ---------------------------------------------------------------------------
// The buffer.
// ---------------------------------------------------------------------------

impl BitBuffer {
    /// The stored bytes.
    pub closed spec fn spec_bytes(&self) -> Seq<u8> {
        self.buffer@
    }

    /// The stored bits are the bits of the stored bytes.
    pub proof fn lemma_bits_are_bytes(&self)
        ensures
            self@.bits == bits_of(self.spec_bytes()),
    {
    }

    /// An empty buffer.
    pub fn new() -> (r: Self)
        ensures
            r@.bits == Seq::<bool>::empty(),
            r@.write_pos == 0,
            r@.read_pos == 0,
            r@.unpadded == 0,
            r@.wf(),
            r@.is_compact(),
    {
        BitBuffer { buffer: Vec::new(), bit_pos: 0, read_pos: 0, unpadded_length: 0 }
    }

    /// A buffer holding `bytes`, positioned for reading from the start.
    pub fn from_bytes(bytes: Vec<u8>) -> (r: Self)
        ensures
            r@.bits == bits_of(bytes@),
            r@.write_pos == 0,
            r@.read_pos == 0,
            r@.unpadded == 0,
            r@.wf(),
    {
        BitBuffer { buffer: bytes, bit_pos: 0, read_pos: 0, unpadded_length: 0 }
    }

    /// Appends the low `bytes` bytes of `value`, most significant first, after the last
    /// stored byte, and advances the write position by as many bits.
    fn write_bytes_fast(&mut self, value: u64, bytes: usize) -> (r: Result<(), BitError>)
        requires
            1 <= bytes <= 8,
            old(self)@.wf(),
            old(self)@.write_pos % 8 == 0,
            old(self)@.write_pos + 8 * bytes <= usize::MAX,
        ensures
            r is Ok,
            final(self)@.bits() == old(self)@.bits() + value_bits(value, (8 * bytes) as nat),
            final(self)@.write_pos == old(self)@.write_pos + 8 * bytes,
            final(self)@.unpadded == old(self)@.unpadded + 8 * bytes,
            final(self)@.read_pos == old(self)@.read_pos,
            final(self)@.wf(),
    {
        let ghost old_bits = bits_of(self.buffer@);
        let ghost vb = value_bits(value, (8 * bytes) as nat);
        let mut i: usize = 0;
        while i < bytes
            invariant
                1 <= bytes <= 8,
                i <= bytes,
                old_bits == bits_of(old(self).buffer@),
                vb == value_bits(value, (8 * bytes) as nat),
                self.buffer@.len() == old(self).buffer@.len() + i,
                bits_of(self.buffer@) == old_bits + vb.take(8 * i),
                self.bit_pos == old(self).bit_pos,
                self.unpadded_length == old(self).unpadded_length,
                self.read_pos == old(self).read_pos,
            decreases bytes - i,
        {
            let shift: u64 = 8 * (bytes - 1 - i) as u64;
            let byte = ((value >> shift) & 0xFF) as u8;
            proof {
                lemma_bits_push(self.buffer@, byte);
                let nb = Seq::new(8, |j: int| byte_bit(byte, j));
                assert forall|j: int| 0 <= j < 8 implies nb[j] == vb[8 * i + j] by {
                    lemma_value_byte_bit(value, shift, j as u64);
                }
                assert(vb.take(8 * (i + 1)) =~= vb.take(8 * i) + nb);
            }
            self.buffer.push(byte);
            i = i + 1;
        }
        assert(vb.take(8 * bytes) =~= vb);
        self.bit_pos = self.bit_pos + bytes * 8;
        self.unpadded_length = self.unpadded_length + bytes * 8;
        Ok(())
    }

    /// Or-s the low `bits` bits of `value` into the stored bits at the write position,
    /// a byte's worth at a time, adding zero bytes as the position passes the end.
    #[verifier::loop_isolation(false)]
    fn write_bits_optimized(&mut self, value: u64, bits: usize) -> (r: Result<(), BitError>)
        requires
            1 <= bits <= 64,
            old(self)@.wf(),
            old(self)@.write_pos + bits <= usize::MAX,
        ensures
            r is Ok,
            final(self)@.bits() == ({
                let base = extend_to(old(self)@.bits(), (old(self)@.write_pos + bits - 1) as nat);
                Seq::new(
                    base.len(),
                    |q: int|
                        base[q] || (old(self)@.write_pos <= q < old(self)@.write_pos + bits
                            && value_bits(value, bits as nat)[q - old(self)@.write_pos]),
                )
            }),
            final(self)@.write_pos == old(self)@.write_pos + bits,
            final(self)@.unpadded == old(self)@.unpadded + bits,
            final(self)@.read_pos == old(self)@.read_pos,
            final(self)@.wf(),
    {
        let ghost p0 = self.bit_pos as int;
        let ghost old_bits = bits_of(self.buffer@);
        let ghost old_len = self.buffer@.len();
        let ghost vb = value_bits(value, bits as nat);
        let mut remaining_bits = bits;
        let mut val = value;
        while remaining_bits > 0
            invariant
                1 <= bits <= 64,
                p0 == old(self).bit_pos,
                p0 + bits <= usize::MAX,
                old_bits == bits_of(old(self).buffer@),
                old_len == old(self).buffer@.len(),
                vb == value_bits(value, bits as nat),
                remaining_bits <= bits,
                self.bit_pos == p0 + bits - remaining_bits,
                forall|t: int| 0 <= t < remaining_bits ==> u64_bit(val, t) == u64_bit(value, t),
                self.bit_pos / 8 <= self.buffer@.len(),
                remaining_bits < bits ==> self.bit_pos <= 8 * self.buffer@.len(),
                remaining_bits == bits ==> self.buffer@.len() == old_len,
                remaining_bits < bits ==> self.buffer@.len() == if old_len < bytes_for(
                    self.bit_pos as nat,
                ) {
                    bytes_for(self.bit_pos as nat)
                } else {
                    old_len
                },
                bits_of(self.buffer@) == Seq::new(
                    8 * self.buffer@.len(),
                    |q: int|
                        (q < old_bits.len() && old_bits[q]) || (p0 <= q < self.bit_pos && vb[q
                            - p0]),
                ),
                self.unpadded_length == old(self).unpadded_length,
                self.read_pos == old(self).read_pos,
                self.read_pos <= 8 * old_len,
            decreases remaining_bits,
        {
            let byte_pos = self.bit_pos / 8;
            let bit_offset = self.bit_pos % 8;
            let bits_available_in_byte = 8 - bit_offset;
            let bits_to_write = if remaining_bits < bits_available_in_byte {
                remaining_bits
            } else {
                bits_available_in_byte
            };
            let ghost len_before = self.buffer@.len();
            while byte_pos >= self.buffer.len()
                invariant
                    byte_pos <= len_before,
                    self.buffer@.len() == len_before || self.buffer@.len() == byte_pos + 1,
                    byte_pos <= self.buffer@.len(),
                    bits_of(self.buffer@) == Seq::new(
                        8 * self.buffer@.len(),
                        |q: int|
                            (q < old_bits.len() && old_bits[q]) || (p0 <= q < self.bit_pos
                                && vb[q - p0]),
                    ),
                    self.buffer@.len() >= old_len,
                    self.bit_pos == p0 + bits - remaining_bits,
                    self.unpadded_length == old(self).unpadded_length,
                    self.read_pos == old(self).read_pos,
                    self.bit_pos == p0 || self.bit_pos <= 8 * self.buffer@.len(),
                decreases byte_pos + 1 - self.buffer@.len(),
            {
                proof {
                    lemma_bits_push_zero(self.buffer@);
                    let a = bits_of(self.buffer@) + zero_bits(8);
                    let b = Seq::new(
                        8 * (self.buffer@.len() + 1),
                        |q: int|
                            (q < old_bits.len() && old_bits[q]) || (p0 <= q < self.bit_pos && vb[q
                                - p0]),
                    );
                    assert(a =~= b);
                }
                self.buffer.push(0);
            }
            let shift = if remaining_bits >= bits_to_write {
                remaining_bits - bits_to_write
            } else {
                0
            };
            proof {
                let k = bits_to_write as u64;
                assert(1 <= k <= 8 ==> (1u64 << k) >= 1) by (bit_vector);
            }
            let bits_to_write_val = if shift < 64 {
                (val >> shift as u64) & ((1u64 << bits_to_write as u64) - 1)
            } else {
                0
            };
            let byte_shift = bits_available_in_byte - bits_to_write;
            let old_byte = self.buffer[byte_pos];
            let new_byte = old_byte | ((bits_to_write_val as u8) << byte_shift as u8);
            proof {
                lemma_write_chunk(
                    self.buffer@,
                    byte_pos as int,
                    new_byte,
                    bits_to_write_val,
                    val,
                    value,
                    shift as u64,
                    bits_to_write as u64,
                    bit_offset as u64,
                    p0,
                    self.bit_pos as int,
                    bits as int,
                    remaining_bits as int,
                    old_bits,
                );
            }
            self.buffer.set(byte_pos, new_byte);
            self.bit_pos = self.bit_pos + bits_to_write;
            remaining_bits = remaining_bits - bits_to_write;
            proof {
                let r = remaining_bits as u64;
                assert(0 < r < 64 ==> (1u64 << r) >= 1) by (bit_vector);
            }
            let ghost old_val = val;
            val = val & if remaining_bits > 0 && remaining_bits < 64 {
                (1u64 << remaining_bits as u64) - 1
            } else if remaining_bits == 0 {
                0
            } else {
                u64::MAX
            };
            proof {
                assert forall|t: int| 0 <= t < remaining_bits implies u64_bit(val, t) == u64_bit(
                    value,
                    t,
                ) by {
                    if remaining_bits < 64 {
                        lemma_mask_keeps_low_bits(old_val, remaining_bits as u64, t as u64);
                    } else {
                        assert(old_val & u64::MAX == old_val) by (bit_vector);
                    }
                }
            }
        }
        self.unpadded_length = self.unpadded_length + bits;
        proof {
            let base = extend_to(old_bits, (p0 + bits - 1) as nat);
            assert(bits_of(self.buffer@) =~= Seq::new(
                base.len(),
                |q: int| base[q] || (p0 <= q < p0 + bits && vb[q - p0]),
            ));
        }
        Ok(())
    }

    /// Reads `bytes` whole bytes starting at the byte under the read position.
    fn read_bytes_fast(&mut self, bytes: usize) -> (r: Result<u64, BitError>)
        requires
            1 <= bytes <= 8,
            old(self)@.wf(),
            old(self)@.read_pos % 8 == 0,
            old(self)@.read_pos + 8 * bytes <= usize::MAX,
        ensures
            old(self)@.read_pos + 8 * bytes <= old(self)@.bits().len() ==> {
                &&& r matches Ok(w) && w == bits_to_nat(
                    old(self)@.bits().subrange(
                        old(self)@.read_pos as int,
                        old(self)@.read_pos + 8 * bytes,
                    ),
                )
                &&& final(self)@.read_pos == old(self)@.read_pos + 8 * bytes
            },
            old(self)@.read_pos + 8 * bytes > old(self)@.bits().len() ==> {
                &&& r == Err::<u64, BitError>(BitError::UnexpectedEof)
                &&& final(self)@.read_pos == old(self)@.read_pos
            },
            final(self)@.bits == old(self)@.bits,
            final(self)@.write_pos == old(self)@.write_pos,
            final(self)@.unpadded == old(self)@.unpadded,
            final(self)@.wf(),
    {
        let start_byte = self.read_pos / 8;
        let end_byte = start_byte + bytes;
        if end_byte > self.buffer.len() {
            return Err(BitError::UnexpectedEof);
        }
        let ghost r0 = self.read_pos as int;
        let ghost n = 8 * bytes;
        let ghost sub = bits_of(self.buffer@).subrange(r0, r0 + n);
        let mut value = 0u64;
        let mut i: usize = 0;
        proof {
            assert forall|t: u64| t < 64 implies !#[trigger] u64_bit(0u64, t as int) by {
                assert((0u64 >> t) & 1u64 != 1u64) by (bit_vector);
            }
        }
        while i < bytes
            invariant
                1 <= bytes <= 8,
                i <= bytes,
                end_byte == start_byte + bytes,
                start_byte + bytes <= self.buffer@.len(),
                r0 == 8 * start_byte,
                n == 8 * bytes,
                sub == bits_of(self.buffer@).subrange(r0, r0 + n),
                forall|t: u64|
                    t < 64 ==> (#[trigger] u64_bit(value, t as int) <==> (t < n && n - 1 - t < 8
                        * i && sub[n - 1 - t])),
            decreases bytes - i,
        {
            let byte = self.buffer[start_byte + i];
            let s: u64 = 8 * (bytes - 1 - i) as u64;
            let ghost old_value = value;
            value = value | ((byte as u64) << s);
            proof {
                assert forall|t: u64| t < 64 implies (#[trigger] u64_bit(value, t as int) <==> (t
                    < n && n - 1 - t < 8 * (i + 1) && sub[n - 1 - t])) by {
                    lemma_or_byte(old_value, byte, s, t);
                    assert(u64_bit(old_value, t as int) <==> (t < n && n - 1 - t < 8 * i && sub[n
                        - 1 - t]));
                    if s <= t < s + 8 {
                        let q = r0 + n - 1 - t;
                        assert(q / 8 == start_byte + i);
                        assert(q % 8 == 7 - (t - s));
                        assert(sub[n - 1 - t] == byte_bit(byte, q % 8));
                    }
                }
            }
            i = i + 1;
        }
        proof {
            lemma_read_result(value, sub);
        }
        self.read_pos = self.read_pos + bytes * 8;
        Ok(value)
    }

    /// Reads `bits` bits a byte's worth at a time; on running past the end it stops at
    /// the end of the stored bits.
    #[verifier::loop_isolation(false)]
    fn read_bits_optimized(&mut self, bits: usize) -> (r: Result<u64, BitError>)
        requires
            1 <= bits <= 64,
            old(self)@.wf(),
            old(self)@.read_pos + bits <= usize::MAX,
        ensures
            old(self)@.read_pos + bits <= old(self)@.bits().len() ==> {
                &&& r matches Ok(w) && w == bits_to_nat(
                    old(self)@.bits().subrange(
                        old(self)@.read_pos as int,
                        old(self)@.read_pos + bits,
                    ),
                )
                &&& final(self)@.read_pos == old(self)@.read_pos + bits
            },
            old(self)@.read_pos + bits > old(self)@.bits().len() ==> {
                &&& r == Err::<u64, BitError>(BitError::UnexpectedEof)
                &&& final(self)@.read_pos == old(self)@.bits().len()
            },
            final(self)@.bits == old(self)@.bits,
            final(self)@.write_pos == old(self)@.write_pos,
            final(self)@.unpadded == old(self)@.unpadded,
            final(self)@.wf(),
    {
        let ghost r0 = self.read_pos as int;
        let ghost n = bits as int;
        let ghost all = bits_of(self.buffer@);
        let mut remaining_bits = bits;
        let mut value = 0u64;
        proof {
            assert forall|t: u64| t < 64 implies !#[trigger] u64_bit(0u64, t as int) by {
                assert((0u64 >> t) & 1u64 != 1u64) by (bit_vector);
            }
        }
        while remaining_bits > 0
            invariant
                remaining_bits <= bits,
                self.read_pos == r0 + n - remaining_bits,
                self.read_pos <= all.len(),
                self.read_pos == r0 || self.read_pos % 8 == 0 || remaining_bits == 0,
                self.buffer@ == old(self).buffer@,
                self.bit_pos == old(self).bit_pos,
                self.unpadded_length == old(self).unpadded_length,
                forall|t: u64|
                    t < 64 ==> (#[trigger] u64_bit(value, t as int) <==> (t < n && t
                        >= remaining_bits && all[r0 + n - 1 - t])),
            decreases remaining_bits,
        {
            let byte_pos = self.read_pos / 8;
            let bit_offset = self.read_pos % 8;
            let bits_available_in_byte = 8 - bit_offset;
            let bits_to_read = if remaining_bits < bits_available_in_byte {
                remaining_bits
            } else {
                bits_available_in_byte
            };
            if byte_pos >= self.buffer.len() {
                return Err(BitError::UnexpectedEof);
            }
            let byte_shift = bits_available_in_byte - bits_to_read;
            let k = bits_to_read as u8;
            proof {
                assert(1 <= k < 8 ==> (1u8 << k) >= 1) by (bit_vector);
            }
            let mask: u8 = if bits_to_read >= 8 {
                0xFF
            } else {
                (1u8 << k) - 1
            };
            let byte = self.buffer[byte_pos];
            let bits_value = (byte >> byte_shift as u8) & mask;
            let result_shift = remaining_bits - bits_to_read;
            let ghost old_value = value;
            if result_shift < 64 {
                value = value | ((bits_value as u64) << result_shift as u64);
            }
            proof {
                let rs = result_shift as u64;
                let off = bit_offset as u8;
                assert forall|t: u64| t < 64 implies (#[trigger] u64_bit(value, t as int) <==> (t
                    < n && t >= remaining_bits - bits_to_read && all[r0 + n - 1 - t])) by {
                    lemma_or_read_chunk(old_value, byte, off, k, mask, rs, t);
                    assert(u64_bit(old_value, t as int) <==> (t < n && t >= remaining_bits
                        && all[r0 + n - 1 - t]));
                    if rs <= t < rs + k {
                        let q = r0 + n - 1 - t;
                        assert(q == 8 * byte_pos + off + k - 1 - (t - rs));
                        assert(q / 8 == byte_pos);
                        assert(q % 8 == off + k - 1 - (t - rs));
                        assert(all[q] == byte_bit(byte, q % 8));
                        assert(u64_bit(value, t as int) == all[q]);
                    } else {
                        assert(u64_bit(value, t as int) == u64_bit(old_value, t as int));
                    }
                }
            }
            self.read_pos = self.read_pos + bits_to_read;
            remaining_bits = remaining_bits - bits_to_read;
        }
        proof {
            let sub = all.subrange(r0, r0 + n);
            assert forall|t: u64| t < 64 implies (#[trigger] u64_bit(value, t as int) <==> (t
                < sub.len() && sub[sub.len() - 1 - t])) by {
                if t < n {
                    assert(sub[n - 1 - t] == all[r0 + n - 1 - t]);
                }
            }
            lemma_read_result(value, sub);
        }
        Ok(value)
    }

    /// Pads the write position to a byte boundary with zero bits, when asked to.
    #[verifier::rlimit(40)]
    fn flush(&mut self, pad_to_byte: bool) -> (r: Result<(), BitError>)
        requires
            old(self)@.wf(),
            old(self)@.padded_pos() <= usize::MAX,
        ensures
            r is Ok,
            !pad_to_byte ==> final(self)@ == old(self)@ && final(self).buffer@ == old(self).buffer@,
            pad_to_byte ==> {
                &&& final(self)@.bits() == old(self)@.bits_after_pad()
                &&& final(self)@.write_pos == old(self)@.padded_pos()
                &&& final(self)@.unpadded == old(self)@.padded_pos()
                &&& final(self)@.read_pos == old(self)@.read_pos
            },
            final(self)@.wf(),
    {
        if pad_to_byte {
            let ghost p0 = self.bit_pos as nat;
            let ghost old_bits = self@.bits();
            let ghost target = self@.padded_pos();
            let ghost base = extend_to(old_bits, p0);
            while self.bit_pos % 8 != 0
                invariant
                    self@.wf(),
                    p0 <= self.bit_pos <= target,
                    target == 8 * bytes_for(p0),
                    target <= usize::MAX,
                    old_bits == bits_of(old(self).buffer@),
                    base == extend_to(old_bits, p0),
                    self.read_pos == old(self).read_pos,
                    self.bit_pos == p0 ==> self@.bits() == old_bits,
                    self.bit_pos > p0 ==> self@.bits() == Seq::new(
                        base.len(),
                        |q: int| if p0 <= q < self.bit_pos { false } else { base[q] },
                    ),
                decreases target - self.bit_pos,
            {
                let ghost before = self@;
                let ghost cur = self.bit_pos as int;
                let _ = self.write_bit(false);
                proof {
                    assert(cur < target);
                    let expect = Seq::new(
                        base.len(),
                        |q: int| if p0 <= q < cur + 1 { false } else { base[q] },
                    );
                    if cur == p0 {
                        assert(extend_to(before.bits(), before.write_pos) == base);
                    } else {
                        assert(cur % 8 != 0);
                        assert(cur < before.bits().len());
                    }
                    assert(self@.bits() =~= expect);
                }
            }
            proof {
                if self.bit_pos == p0 {
                    assert(p0 % 8 == 0);
                } else {
                    assert(self.bit_pos == target);
                }
            }
        }
        Ok(())
    }

    /// The stored bytes, after padding the write position to a byte boundary when asked.
    pub fn into_bytes(self, pad_to_byte: bool) -> (r: Result<Vec<u8>, BitError>)
        requires
            self@.wf(),
            self@.padded_pos() <= usize::MAX,
        ensures
            r matches Ok(bytes) && bits_of(bytes@) == if pad_to_byte {
                self@.bits_after_pad()
            } else {
                self@.bits()
            },
            !pad_to_byte ==> (r matches Ok(bytes) && bytes@ == self.spec_bytes()),
    {
        let mut this = self;
        this.flush(pad_to_byte)?;
        Ok(this.buffer)
    }

    /// The first `bit_length` stored bits as `0`s and `1`s, a space between each byte.
    pub fn to_bit_string(&self, bit_length: usize) -> (r: String)
        ensures
            r@ == bit_text(
                self@.bits(),
                if bit_length < self@.bits().len() {
                    bit_length as nat
                } else {
                    self@.bits().len()
                },
            ),
    {
        let mut bit_string = String::new();
        let mut bits_written: usize = 0;
        let ghost all = self@.bits();
        let mut i: usize = 0;
        while i < self.buffer.len()
            invariant
                all == bits_of(self.buffer@),
                i <= self.buffer@.len(),
                bits_written <= bit_length,
                bits_written <= 8 * i,
                bits_written < 8 * i ==> bits_written == bit_length,
                bit_string@ == bit_text(all, bits_written as nat) + if 0 < i < self.buffer@.len()
                    && bits_written < bit_length {
                    seq![' ']
                } else {
                    Seq::<char>::empty()
                },
            decreases self.buffer@.len() - i,
        {
            let byte = self.buffer[i];
            let mut j: usize = 8;
            while j > 0
                invariant
                    all == bits_of(self.buffer@),
                    i < self.buffer@.len(),
                    byte == self.buffer@[i as int],
                    j <= 8,
                    bits_written <= bit_length,
                    bits_written < 8 * i + (8 - j) ==> bits_written == bit_length,
                    bits_written <= 8 * i + (8 - j),
                    bit_string@ == bit_text(all, bits_written as nat) + if j == 8 && 0 < i
                        && bits_written < bit_length {
                        seq![' ']
                    } else {
                        Seq::<char>::empty()
                    },
                ensures
                    bits_written <= bit_length,
                    bits_written <= 8 * i + 8,
                    bits_written < 8 * i + 8 ==> bits_written == bit_length,
                    bit_string@ == bit_text(all, bits_written as nat),
                decreases j,
            {
                if bits_written < bit_length {
                    let b = (byte >> (j - 1) as u8) & 1u8;
                    proof {
                        let q = bits_written as int;
                        assert(q == 8 * i + (8 - j));
                        assert(q / 8 == i);
                        assert(q % 8 == 8 - j);
                        assert(all[q] == byte_bit(byte, 8 - j));
                        assert(all[q] == (b == 1u8));
                    }
                    if b == 1u8 {
                        push_char(&mut bit_string, '1');
                    } else {
                        push_char(&mut bit_string, '0');
                    }
                    proof {
                        let q = bits_written as int;
                        let c = if all[q] { '1' } else { '0' };
                        let sep = if q > 0 && q % 8 == 0 {
                            seq![' ']
                        } else {
                            Seq::<char>::empty()
                        };
                        assert(bit_text(all, (q + 1) as nat) == bit_text(all, q as nat) + sep
                            + seq![c]);
                        assert(bit_string@ =~= bit_text(all, (q + 1) as nat));
                    }
                    bits_written = bits_written + 1;
                    j = j - 1;
                } else {
                    break;
                }
            }
            if bits_written < bit_length && i < self.buffer.len() - 1 {
                push_char(&mut bit_string, ' ');
                proof {
                    assert(bit_string@ =~= bit_text(all, bits_written as nat) + seq![' ']);
                }
            }
            i = i + 1;
        }
        proof {
            assert(bit_string@ =~= bit_text(all, bits_written as nat));
        }
        bit_string
    }

    /// The number of bits written so far.
    pub fn unpadded_length(&self) -> (r: usize)
        ensures
            r == self@.unpadded,
    {
        self.unpadded_length
    }
}

impl BitWrite for BitBuffer {
    open spec fn spec_write_room(&self, bits: nat) -> bool {
        self@.wf() && self@.write_pos + bits <= usize::MAX
    }

    /// Writes one bit at the write position, adding a zero byte first when the position
    /// lies past the stored bytes.
    fn write_bit(&mut self, bit: bool) -> (r: Result<(), BitError>)
        ensures
            r is Ok,
            final(self)@ == old(self)@.after_write_bit(bit),
            final(self)@.bits() == old(self)@.bits_after_write_bit(bit),
            final(self)@.write_pos == old(self)@.write_pos + 1,
            final(self)@.unpadded == old(self)@.unpadded + 1,
            final(self)@.read_pos == old(self)@.read_pos,
            final(self)@.wf(),
    {
        let byte_pos = self.bit_pos / 8;
        let bit_offset = self.bit_pos % 8;
        let ghost old_bytes = self.buffer@;
        if byte_pos >= self.buffer.len() {
            self.buffer.push(0);
            proof {
                lemma_bits_push_zero(old_bytes);
            }
        }
        let ghost mid_bytes = self.buffer@;
        assert(bits_of(mid_bytes) == extend_to(bits_of(old_bytes), self.bit_pos as nat));
        let old_byte = self.buffer[byte_pos];
        let mask: u8 = 1u8 << (7 - bit_offset) as u8;
        if bit {
            self.buffer.set(byte_pos, old_byte | mask);
        } else {
            self.buffer.set(byte_pos, old_byte & !mask);
        }
        proof {
            let nb = self.buffer@;
            let expect = extend_to(bits_of(old_bytes), self.bit_pos as nat).update(
                self.bit_pos as int,
                bit,
            );
            assert forall|q: int| 0 <= q < bits_of(nb).len() implies bits_of(nb)[q] == expect[q] by {
                lemma_bits_update(mid_bytes, byte_pos as int, nb[byte_pos as int], q);
                if q / 8 == byte_pos {
                    lemma_byte_set_bit(old_byte, bit_offset as u8, (q % 8) as u8);
                }
            }
            assert(bits_of(nb) =~= expect);
        }
        self.bit_pos = self.bit_pos + 1;
        self.unpadded_length = self.unpadded_length + 1;
        Ok(())
    }

    /// Writes the low `bits` bits of `value`; more than 64 bits are refused.
    fn write_bits(&mut self, value: u64, bits: usize) -> (r: Result<(), BitError>)
        ensures
            final(self)@ == old(self)@.after_write_bits(value, bits as nat),
            bits > 64 ==> r == Err::<(), BitError>(BitError::InvalidInput) && final(self)@ == old(
                self,
            )@,
            bits == 0 ==> r is Ok && final(self)@ == old(self)@,
            1 <= bits <= 64 ==> {
                &&& r is Ok
                &&& final(self)@.bits() == old(self)@.bits_after_write_bits(value, bits as nat)
                &&& final(self)@.write_pos == old(self)@.write_pos + bits
                &&& final(self)@.unpadded == old(self)@.unpadded + bits
                &&& final(self)@.read_pos == old(self)@.read_pos
                &&& final(self)@.wf()
            },
    {
        if bits > 64 {
            return Err(BitError::InvalidInput);
        }
        if bits == 0 {
            return Ok(());
        }
        proof {
            let b = bits as u64;
            assert(b < 64 ==> (1u64 << b) >= 1) by (bit_vector);
        }
        let val = if bits == 64 {
            value
        } else {
            value & ((1u64 << bits as u64) - 1)
        };
        proof {
            if bits < 64 {
                assert forall|i: int| 0 <= i < bits implies value_bits(val, bits as nat)[i]
                    == value_bits(value, bits as nat)[i] by {
                    lemma_mask_keeps_low_bits(value, bits as u64, (bits - 1 - i) as u64);
                }
            }
            assert(value_bits(val, bits as nat) =~= value_bits(value, bits as nat));
        }
        if self.bit_pos % 8 == 0 && bits % 8 == 0 {
            return self.write_bytes_fast(val, bits / 8);
        }
        self.write_bits_optimized(val, bits)
    }

    open spec fn spec_write_position(&self) -> nat {
        self@.write_pos
    }

    fn bit_pos(&self) -> (r: usize) {
        self.bit_pos
    }
}

impl BitRead for BitBuffer {
    open spec fn spec_read_room(&self, bits: nat) -> bool {
        self@.wf() && self@.read_pos + bits <= usize::MAX
    }

    /// Reads the bit at the read position.
    fn read_bit(&mut self) -> (r: Result<bool, BitError>)
        ensures
            (r, final(self)@) == old(self)@.read_bit_result(),
            old(self)@.read_pos < old(self)@.bits().len() ==> {
                &&& r == Ok::<bool, BitError>(old(self)@.bits()[old(self)@.read_pos as int])
                &&& final(self)@.read_pos == old(self)@.read_pos + 1
            },
            old(self)@.read_pos >= old(self)@.bits().len() ==> {
                &&& r == Err::<bool, BitError>(BitError::UnexpectedEof)
                &&& final(self)@.read_pos == old(self)@.read_pos
            },
            final(self)@.bits == old(self)@.bits,
            final(self)@.write_pos == old(self)@.write_pos,
            final(self)@.unpadded == old(self)@.unpadded,
            final(self)@.wf(),
    {
        let byte_pos = self.read_pos / 8;
        let bit_offset = self.read_pos % 8;
        if byte_pos >= self.buffer.len() {
            return Err(BitError::UnexpectedEof);
        }
        let byte = self.buffer[byte_pos];
        let bit = (byte >> (7 - bit_offset) as u8) & 1u8 == 1u8;
        self.read_pos = self.read_pos + 1;
        Ok(bit)
    }

    /// Reads `bits` bits; more than 64 bits are refused.
    fn read_bits(&mut self, bits: usize) -> (r: Result<u64, BitError>)
        ensures
            (r, final(self)@) == old(self)@.read_bits_result(bits as nat),
            bits > 64 ==> r == Err::<u64, BitError>(BitError::InvalidInput) && final(self)@ == old(
                self,
            )@,
            bits == 0 ==> r == Ok::<u64, BitError>(0) && final(self)@ == old(self)@,
            1 <= bits <= 64 && old(self)@.read_pos + bits <= old(self)@.bits().len() ==> {
                &&& r matches Ok(w) && w == bits_to_nat(
                    old(self)@.bits().subrange(
                        old(self)@.read_pos as int,
                        old(self)@.read_pos + bits,
                    ),
                )
                &&& final(self)@.read_pos == old(self)@.read_pos + bits
            },
            1 <= bits <= 64 && old(self)@.read_pos + bits > old(self)@.bits().len() ==> {
                &&& r == Err::<u64, BitError>(BitError::UnexpectedEof)
                &&& final(self)@.read_pos == old(self)@.read_pos_after_short_read(bits as nat)
            },
            final(self)@.bits == old(self)@.bits,
            final(self)@.write_pos == old(self)@.write_pos,
            final(self)@.unpadded == old(self)@.unpadded,
            final(self)@.wf(),
    {
        if bits > 64 {
            return Err(BitError::InvalidInput);
        }
        if bits == 0 {
            return Ok(0);
        }
        if self.read_pos % 8 == 0 && bits % 8 == 0 {
            return self.read_bytes_fast(bits / 8);
        }
        self.read_bits_optimized(bits)
    }

    open spec fn spec_read_position(&self) -> nat {
        self@.read_pos
    }

    fn bit_pos(&self) -> (r: usize) {
        self.read_pos
    }
}

} // verus!
