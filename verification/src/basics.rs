//! Byte-order aware integer reads and an MSB-first bit reader.
//!
//! All reads are checked: a read that would go past the end of the buffer
//! yields 0 instead of failing, and the bit reader yields zero bits past the
//! end of its data.

use vstd::prelude::*;
use vstd::arithmetic::power2::pow2;
use vstd::arithmetic::power2::lemma_pow2_unfold;
use vstd::arithmetic::power2::lemma_pow2_pos;

verus! {

/// Byte order of multi-byte values in a file.
#[derive(Clone, Copy, Debug, PartialEq, Eq, Structural)]
pub enum Endian {
    Big,
    Little,
}

/// Big-endian 16-bit value at `off`, or 0 where the two bytes are not all in `s`.
pub open spec fn spec_be_u16(s: Seq<u8>, off: int) -> u16 {
    if 0 <= off && off + 2 <= s.len() {
        (s[off] as int * 0x100 + s[off + 1] as int) as u16
    } else {
        0
    }
}

/// Little-endian 16-bit value at `off`, or 0 where the two bytes are not all in `s`.
pub open spec fn spec_le_u16(s: Seq<u8>, off: int) -> u16 {
    if 0 <= off && off + 2 <= s.len() {
        (s[off + 1] as int * 0x100 + s[off] as int) as u16
    } else {
        0
    }
}

/// Big-endian 32-bit value at `off`, or 0 where the four bytes are not all in `s`.
pub open spec fn spec_be_u32(s: Seq<u8>, off: int) -> u32 {
    if 0 <= off && off + 4 <= s.len() {
        (s[off] as int * 0x1000000 + s[off + 1] as int * 0x10000 + s[off + 2] as int * 0x100
            + s[off + 3] as int) as u32
    } else {
        0
    }
}

/// Little-endian 32-bit value at `off`, or 0 where the four bytes are not all in `s`.
pub open spec fn spec_le_u32(s: Seq<u8>, off: int) -> u32 {
    if 0 <= off && off + 4 <= s.len() {
        (s[off + 3] as int * 0x1000000 + s[off + 2] as int * 0x10000 + s[off + 1] as int * 0x100
            + s[off] as int) as u32
    } else {
        0
    }
}

/// 16-bit value at `off` in byte order `e`.
pub open spec fn spec_read_u16(e: Endian, s: Seq<u8>, off: int) -> u16 {
    match e {
        Endian::Big => spec_be_u16(s, off),
        Endian::Little => spec_le_u16(s, off),
    }
}

/// 32-bit value at `off` in byte order `e`.
pub open spec fn spec_read_u32(e: Endian, s: Seq<u8>, off: int) -> u32 {
    match e {
        Endian::Big => spec_be_u32(s, off),
        Endian::Little => spec_le_u32(s, off),
    }
}

/// Reads a big-endian `u16` at `offset`; 0 if the buffer is too short.
pub fn be_u16(buf: &[u8], offset: usize) -> (r: u16)
    ensures
        r == spec_be_u16(buf@, offset as int),
{
    if offset < buf.len() && buf.len() - offset >= 2 {
        (buf[offset] as u16) * 0x100 + (buf[offset + 1] as u16)
    } else {
        0
    }
}

/// Reads a little-endian `u16` at `offset`; 0 if the buffer is too short.
pub fn le_u16(buf: &[u8], offset: usize) -> (r: u16)
    ensures
        r == spec_le_u16(buf@, offset as int),
{
    if offset < buf.len() && buf.len() - offset >= 2 {
        (buf[offset + 1] as u16) * 0x100 + (buf[offset] as u16)
    } else {
        0
    }
}

/// Reads a big-endian `u32` at `offset`; 0 if the buffer is too short.
pub fn be_u32(buf: &[u8], offset: usize) -> (r: u32)
    ensures
        r == spec_be_u32(buf@, offset as int),
{
    if offset < buf.len() && buf.len() - offset >= 4 {
        (buf[offset] as u32) * 0x1000000 + (buf[offset + 1] as u32) * 0x10000 + (buf[offset
            + 2] as u32) * 0x100 + (buf[offset + 3] as u32)
    } else {
        0
    }
}

/// Reads a little-endian `u32` at `offset`; 0 if the buffer is too short.
pub fn le_u32(buf: &[u8], offset: usize) -> (r: u32)
    ensures
        r == spec_le_u32(buf@, offset as int),
{
    if offset < buf.len() && buf.len() - offset >= 4 {
        (buf[offset + 3] as u32) * 0x1000000 + (buf[offset + 2] as u32) * 0x10000 + (buf[offset
            + 1] as u32) * 0x100 + (buf[offset] as u32)
    } else {
        0
    }
}

impl Endian {
    /// Whether this is the little-endian byte order.
    pub fn little(&self) -> (r: bool)
        ensures
            r == (*self == Endian::Little),
    {
        match self {
            Endian::Big => false,
            Endian::Little => true,
        }
    }

    /// Reads a `u16` at `offset` in this byte order; 0 if the buffer is too short.
    pub fn ru16(&self, buf: &[u8], offset: usize) -> (r: u16)
        ensures
            r == spec_read_u16(*self, buf@, offset as int),
    {
        match self {
            Endian::Big => be_u16(buf, offset),
            Endian::Little => le_u16(buf, offset),
        }
    }

    /// Reads a `u32` at `offset` in this byte order; 0 if the buffer is too short.
    pub fn ru32(&self, buf: &[u8], offset: usize) -> (r: u32)
        ensures
            r == spec_read_u32(*self, buf@, offset as int),
    {
        match self {
            Endian::Big => be_u32(buf, offset),
            Endian::Little => le_u32(buf, offset),
        }
    }
}

/// Bit `i` of the stream made of the bytes of `s`, most significant bit
/// first, followed by zero bits without end.
pub open spec fn stream_bit(s: Seq<u8>, i: int) -> u8 {
    if 0 <= i && i < 8 * s.len() {
        (s[i / 8] >> ((7 - i % 8) as u8)) & 1u8
    } else {
        0
    }
}

/// The `n` bits of the stream of `s` that start at bit `start`, read as an
/// unsigned number whose first bit is the most significant.
pub open spec fn stream_value(s: Seq<u8>, start: int, n: nat) -> int
    decreases n,
{
    if n == 0 {
        0
    } else {
        2 * stream_value(s, start, (n - 1) as nat) + stream_bit(s, start + n - 1) as int
    }
}

/// The bit position reached after reading `n` bits from `pos`: reading stops
/// advancing at the end of the data, where only zero bits follow.
pub open spec fn advanced(s: Seq<u8>, pos: int, n: int) -> int {
    if pos + n <= 8 * s.len() {
        pos + n
    } else {
        8 * s.len() as int
    }
}

/// An `n`-bit read is below `2^n`.
pub proof fn lemma_stream_value_bound(s: Seq<u8>, start: int, n: nat)
    ensures
        0 <= stream_value(s, start, n) < pow2(n),
    decreases n,
{
    if n == 0 {
        lemma_pow2_pos(0);
        assert(pow2(0) == 1) by {
            vstd::arithmetic::power2::lemma2_to64();
        }
    } else {
        lemma_stream_value_bound(s, start, (n - 1) as nat);
        lemma_pow2_unfold(n);
        let b = stream_bit(s, start + n - 1);
        if 0 <= start + n - 1 && start + n - 1 < 8 * s.len() {
            let x = s[(start + n - 1) / 8];
            let k = ((7 - (start + n - 1) % 8) as u8);
            assert((x >> k) & 1u8 <= 1u8) by (bit_vector);
        }
    }
}

/// Reading `n` bits and then `m` more gives the same number as reading
/// `n + m` bits at once: the first read makes the high bits, and the second
/// goes on from where the first stopped.
pub proof fn lemma_split_read(s: Seq<u8>, p: int, n: nat, m: nat)
    requires
        0 <= p <= 8 * s.len(),
    ensures
        stream_value(s, p, n + m) == stream_value(s, p, n) * pow2(m) + stream_value(
            s,
            advanced(s, p, n as int),
            m,
        ),
    decreases m,
{
    if m == 0 {
        assert(pow2(0) == 1) by {
            vstd::arithmetic::power2::lemma2_to64();
        }
        assert(n + m == n);
    } else {
        lemma_split_read(s, p, n, (m - 1) as nat);
        lemma_pow2_unfold(m);
        let a = advanced(s, p, n as int);
        // the last bit read is the same bit of the stream either way
        if p + n > 8 * s.len() {
            assert(stream_bit(s, p + n + m - 1) == 0);
            assert(stream_bit(s, a + m - 1) == 0);
        }
        assert(stream_value(s, p, (n + m) as nat) == 2 * stream_value(s, p, (n + m - 1) as nat)
            + stream_bit(s, p + n + m - 1) as int);
        assert(stream_value(s, a, m) == 2 * stream_value(s, a, (m - 1) as nat) + stream_bit(s, a + m - 1) as int);
        let x = stream_value(s, p, n);
        let y = pow2((m - 1) as nat) as int;
        assert(2 * (x * y) == x * (2 * y)) by (nonlinear_arith);
    }
}

/// Reads a bit stream most significant bit first. Past the end of its data
/// the stream yields zero bits and the position stays at the end.
pub struct BitPumpMSB<'a> {
    buffer: &'a [u8],
    byte: usize,
    bit: usize,
}

impl<'a> BitPumpMSB<'a> {
    /// The bytes the stream is made of.
    pub closed spec fn data(&self) -> Seq<u8> {
        self.buffer@
    }

    /// The position of the next bit to be read.
    pub closed spec fn pos(&self) -> int {
        self.byte * 8 + self.bit
    }

    /// The reader's internal invariant.
    pub closed spec fn wf(&self) -> bool {
        &&& self.bit < 8
        &&& self.byte <= self.buffer@.len()
        &&& self.byte == self.buffer@.len() ==> self.bit == 0
    }

    /// A reader at the first bit of `src`.
    pub fn new(src: &'a [u8]) -> (r: BitPumpMSB<'a>)
        ensures
            r.wf(),
            r.data() == src@,
            r.pos() == 0,
    {
        BitPumpMSB { buffer: src, byte: 0, bit: 0 }
    }

    /// The position never passes the end of the data.
    pub proof fn lemma_pos_bound(&self)
        requires
            self.wf(),
        ensures
            0 <= self.pos() <= 8 * self.data().len(),
    {
        assert(self.byte * 8 + self.bit <= 8 * self.buffer@.len()) by (nonlinear_arith)
            requires
                self.bit < 8,
                self.byte <= self.buffer@.len(),
                self.byte == self.buffer@.len() ==> self.bit == 0,
        ;
    }

    /// Whether every bit of the data has been read.
    pub fn exhausted(&self) -> (r: bool)
        requires
            self.wf(),
        ensures
            r == (self.pos() >= 8 * self.data().len()),
    {
        proof {
            self.lemma_pos_bound();
            if self.byte < self.buffer@.len() {
                assert(self.byte * 8 + self.bit < 8 * self.buffer@.len()) by (nonlinear_arith)
                    requires
                        self.bit < 8,
                        self.byte < self.buffer@.len(),
                ;
            }
        }
        self.byte >= self.buffer.len()
    }

    /// Reads one bit.
    pub fn next_bit(&mut self) -> (b: u8)
        requires
            old(self).wf(),
        ensures
            final(self).wf(),
            final(self).data() == old(self).data(),
            b == stream_bit(old(self).data(), old(self).pos()),
            b <= 1,
            final(self).pos() == advanced(old(self).data(), old(self).pos(), 1),
    {
        proof {
            self.lemma_pos_bound();
        }
        let ghost p = self.pos();
        if self.byte >= self.buffer.len() {
            assert(p == 8 * self.buffer@.len());
            return 0;
        }
        let x = self.buffer[self.byte];
        let k = (7 - self.bit) as u8;
        let b = (x >> k) & 1u8;
        proof {
            let byte = self.byte as int;
            let bit = self.bit as int;
            assert((byte * 8 + bit) / 8 == byte && (byte * 8 + bit) % 8 == bit) by (nonlinear_arith)
                requires
                    0 <= bit < 8,
            ;
            assert(byte * 8 + bit < 8 * self.buffer@.len()) by (nonlinear_arith)
                requires
                    0 <= bit < 8,
                    byte < self.buffer@.len(),
            ;
            assert((x >> k) & 1u8 <= 1u8) by (bit_vector);
            assert(p + 1 <= 8 * self.buffer@.len());
        }
        if self.bit == 7 {
            self.bit = 0;
            self.byte = self.byte + 1;
        } else {
            self.bit = self.bit + 1;
        }
        b
    }

    /// Reads `n` bits as an unsigned number, first bit most significant.
    pub fn get_bits(&mut self, n: u32) -> (r: u32)
        requires
            old(self).wf(),
            n <= 32,
        ensures
            final(self).wf(),
            final(self).data() == old(self).data(),
            r as int == stream_value(old(self).data(), old(self).pos(), n as nat),
            final(self).pos() == advanced(old(self).data(), old(self).pos(), n as int),
    {
        let ghost s = self.data();
        let ghost p0 = self.pos();
        proof {
            self.lemma_pos_bound();
        }
        let mut v: u64 = 0;
        let mut k: u32 = 0;
        while k < n
            invariant
                k <= n <= 32,
                self.wf(),
                self.data() == s,
                0 <= p0 <= 8 * s.len(),
                v as int == stream_value(s, p0, k as nat),
                self.pos() == advanced(s, p0, k as int),
            decreases n - k,
        {
            proof {
                lemma_stream_value_bound(s, p0, k as nat);
                vstd::arithmetic::power2::lemma2_to64();
                if k < 32 {
                    vstd::arithmetic::power2::lemma_pow2_strictly_increases(k as nat, 32);
                }
            }
            let ghost pk = self.pos();
            let b = self.next_bit();
            proof {
                if p0 + k < 8 * s.len() {
                    assert(pk == p0 + k);
                } else {
                    assert(pk == 8 * s.len());
                    assert(stream_bit(s, p0 + k) == 0);
                    assert(stream_bit(s, pk) == 0);
                }
                assert(stream_value(s, p0, (k + 1) as nat) == 2 * stream_value(s, p0, k as nat)
                    + stream_bit(s, p0 + k) as int);
            }
            v = 2 * v + b as u64;
            k = k + 1;
        }
        proof {
            lemma_stream_value_bound(s, p0, n as nat);
            vstd::arithmetic::power2::lemma2_to64();
            if n < 32 {
                vstd::arithmetic::power2::lemma_pow2_strictly_increases(n as nat, 32);
            }
        }
        v as u32
    }
}

} // verus!
