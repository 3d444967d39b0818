//! An append-only bit sink (`BitBuffer`) and a forward-only bit cursor
//! (`BitReader`). Bits are packed big-endian within each byte; the buffer
//! may carry an optional hard byte cap, and writes that would start a new
//! byte past the cap fail with `BufferFull`.

use vstd::prelude::*;
use vstd::arithmetic::power2::pow2;
use crate::bits::bits_of;
use crate::bits::byte_bit;
use crate::bits::int_of_bits;
use crate::bits::lemma_byte_set_bit;
use crate::bits::lemma_zero_byte;
use crate::bits::stream_bits;

verus! {

/// The absolute bit capacity of a buffer holding `len` bits under a byte
/// limit of `m`: the tail byte may always be filled, while new bytes are
/// started only below the limit.
pub open spec fn bit_capacity(len: int, m: int) -> int {
    8 * vstd::math::max(m, (len + 7) / 8)
}

proof fn lemma_bit_capacity_bounds(len: int, m: int)
    requires
        0 <= len,
    ensures
        bit_capacity(len, m) >= len,
        len % 8 != 0 ==> len < bit_capacity(len, m),
{
    vstd::arithmetic::div_mod::lemma_fundamental_div_mod(len, 8);
    vstd::arithmetic::div_mod::lemma_mod_bound(len, 8);
    let k = len / 8;
    let s = len % 8;
    if s == 0 {
        assert(len + 7 == 8 * k + 7);
        vstd::arithmetic::div_mod::lemma_div_multiples_vanish_fancy(k, 7, 8);
    } else {
        assert(len + 7 == 8 * (k + 1) + (s - 1));
        vstd::arithmetic::div_mod::lemma_div_multiples_vanish_fancy(k + 1, s - 1, 8);
    }
}

/// While the buffer stays within its byte limit, the capacity is exactly
/// the limit in bits.
pub proof fn lemma_bit_capacity_within(len: int, m: int)
    requires
        0 <= len <= 8 * m,
    ensures
        bit_capacity(len, m) == 8 * m,
{
    vstd::arithmetic::div_mod::lemma_fundamental_div_mod(len, 8);
    vstd::arithmetic::div_mod::lemma_mod_bound(len, 8);
    let k = len / 8;
    let s = len % 8;
    if s == 0 {
        assert(len + 7 == 8 * k + 7);
        vstd::arithmetic::div_mod::lemma_div_multiples_vanish_fancy(k, 7, 8);
    } else {
        assert(len + 7 == 8 * (k + 1) + (s - 1));
        vstd::arithmetic::div_mod::lemma_div_multiples_vanish_fancy(k + 1, s - 1, 8);
        assert(8 * k + s <= 8 * m);
        assert(k + 1 <= m);
    }
}

proof fn lemma_bit_capacity_step(len: int, m: int)
    requires
        0 <= len,
        0 <= m,
        len < bit_capacity(len, m),
    ensures
        bit_capacity(len + 1, m) == bit_capacity(len, m),
{
    vstd::arithmetic::div_mod::lemma_fundamental_div_mod(len, 8);
    vstd::arithmetic::div_mod::lemma_mod_bound(len, 8);
    let k = len / 8;
    let s = len % 8;
    if s == 0 {
        assert(len + 7 == 8 * k + 7);
        vstd::arithmetic::div_mod::lemma_div_multiples_vanish_fancy(k, 7, 8);
        assert(len + 1 + 7 == 8 * (k + 1) + 0);
        vstd::arithmetic::div_mod::lemma_div_multiples_vanish_fancy(k + 1, 0, 8);
    } else {
        assert(len + 7 == 8 * (k + 1) + (s - 1));
        vstd::arithmetic::div_mod::lemma_div_multiples_vanish_fancy(k + 1, s - 1, 8);
        assert(len + 1 + 7 == 8 * (k + 1) + s);
        vstd::arithmetic::div_mod::lemma_div_multiples_vanish_fancy(k + 1, s, 8);
    }
}

/// Error returned when a write would exceed the buffer's byte limit.
#[derive(Debug, Clone, PartialEq, Eq, Structural)]
pub struct BufferFull;

/// A growable bit buffer that supports writing individual bits and
/// multi-bit values, used as the storage for the compressed stream.
///
/// An optional byte limit can be set to cap memory usage. When the limit is
/// reached, write operations return `Err(BufferFull)` instead of growing.
#[derive(Debug, Clone)]
pub struct BitBuffer {
    bytes: Vec<u8>,
    /// Number of valid bits in the last byte (1..=8, or 0 if empty).
    bit_count: u8,
    /// Maximum number of bytes the buffer may hold (`None` = unlimited).
    max_bytes: Option<usize>,
}

impl View for BitBuffer {
    type V = Seq<bool>;

    /// The buffer viewed as the sequence of bits written so far.
    closed spec fn view(&self) -> Seq<bool> {
        stream_bits(self.bytes@, self.spec_len_bits())
    }
}

impl BitBuffer {
    /// Total bits held, as a spec-level integer.
    pub closed spec fn spec_len_bits(&self) -> int {
        if self.bytes@.len() == 0 {
            0
        } else {
            8 * (self.bytes@.len() - 1) + self.bit_count as int
        }
    }

    /// The byte limit, if any.
    pub closed spec fn spec_limit(&self) -> Option<usize> {
        self.max_bytes
    }

    /// Structural invariant: the tail byte holds between 1 and 8 valid bits
    /// (0 only when the buffer is empty), bits past the end are zero, and
    /// the bit count stays representable in a `usize`.
    pub closed spec fn wf(&self) -> bool {
        &&& (self.bytes@.len() == 0 <==> self.bit_count == 0)
        &&& (self.bytes@.len() > 0 ==> 1 <= self.bit_count <= 8)
        &&& (forall|j: int|
            self.spec_len_bits() <= j < 8 * self.bytes@.len() ==> !(#[trigger] byte_bit(
                self.bytes@[j / 8],
                j % 8,
            )))
        &&& self@.len() <= usize::MAX - 7
    }

    /// How many more bits fit: writes may always fill the tail byte, and may
    /// start new bytes only while the byte count is below the limit.
    pub open spec fn can_take(&self, n: int) -> bool {
        match self.spec_limit() {
            Option::None => true,
            Option::Some(m) => self@.len() + n <= bit_capacity(self@.len() as int, m as int),
        }
    }

    /// How many bits of an `n`-bit write would commit before the cap.
    pub open spec fn writable(&self, n: int) -> int {
        match self.spec_limit() {
            Option::None => n,
            Option::Some(m) => vstd::math::min(
                n,
                bit_capacity(self@.len() as int, m as int) - self@.len(),
            ),
        }
    }

    /// Creates a new empty `BitBuffer` with no size limit.
    pub fn new() -> (r: Self)
        ensures
            r.wf(),
            r@ == Seq::<bool>::empty(),
            r.spec_limit() is None,
    {
        let r = Self { bytes: Vec::new(), bit_count: 0, max_bytes: None };
        proof {
            assert(r@ =~= Seq::<bool>::empty());
        }
        r
    }

    /// Creates a `BitBuffer` with the given pre-allocated capacity in bytes.
    pub fn with_capacity(capacity: usize) -> (r: Self)
        ensures
            r.wf(),
            r@ == Seq::<bool>::empty(),
            r.spec_limit() is None,
    {
        let r = Self { bytes: Vec::with_capacity(capacity), bit_count: 0, max_bytes: None };
        proof {
            assert(r@ =~= Seq::<bool>::empty());
        }
        r
    }

    /// Creates a `BitBuffer` with a maximum byte limit.
    ///
    /// Once the buffer contains `max_bytes` bytes, further writes that would
    /// require a new byte return `Err(BufferFull)`.
    pub fn with_limit(max_bytes: usize) -> (r: Self)
        ensures
            r.wf(),
            r@ == Seq::<bool>::empty(),
            r.spec_limit() == Some(max_bytes),
    {
        let capacity = if max_bytes < 128 {
            max_bytes
        } else {
            128
        };
        let r = Self { bytes: Vec::with_capacity(capacity), bit_count: 0, max_bytes: Some(max_bytes) };
        proof {
            assert(r@ =~= Seq::<bool>::empty());
        }
        r
    }

    /// Creates a `BitBuffer` from raw bytes and a total bit length. The
    /// byte count must match the bit length exactly and the padding bits of
    /// the final byte must be zero.
    pub fn from_raw(bytes: Vec<u8>, total_bits: usize) -> (r: Self)
        requires
            total_bits <= 8 * bytes@.len(),
            8 * bytes@.len() < total_bits + 8,
            total_bits <= usize::MAX - 7,
            forall|j: int|
                total_bits <= j < 8 * bytes@.len() ==> !(#[trigger] byte_bit(
                    bytes@[j / 8],
                    j % 8,
                )),
        ensures
            r.wf(),
            r@ == stream_bits(bytes@, total_bits as int),
            r.spec_limit() is None,
    {
        let remaining = (total_bits % 8) as u8;
        let bit_count: u8 = if bytes.len() == 0 {
            0
        } else if remaining == 0 {
            8
        } else {
            remaining
        };
        let r = Self { bytes, bit_count, max_bytes: None };
        proof {
            let t = total_bits as int;
            let n = r.bytes@.len() as int;
            vstd::arithmetic::div_mod::lemma_fundamental_div_mod(t, 8);
            vstd::arithmetic::div_mod::lemma_mod_bound(t, 8);
            if n > 0 {
                assert(r.spec_len_bits() == t) by {
                    let q = t / 8;
                    let s = t % 8;
                    if s == 0 {
                        assert(8 * (n - 1) < 8 * q <= 8 * n);
                        assert(n == q);
                    } else {
                        assert(8 * (n - 1) <= 8 * q < 8 * n);
                        assert(n - 1 == q);
                    }
                }
            }
            assert(r@ =~= stream_bits(r.bytes@, total_bits as int));
        }
        r
    }

    /// Sets (or clears) the maximum byte limit on an existing buffer.
    pub fn set_limit(&mut self, max_bytes: Option<usize>)
        ensures
            final(self)@ == old(self)@,
            final(self).spec_limit() == max_bytes,
            final(self).wf() == old(self).wf(),
    {
        self.max_bytes = max_bytes;
    }

    /// Returns the current byte limit, if any.
    pub fn limit(&self) -> (r: Option<usize>)
        ensures
            r == self.spec_limit(),
    {
        self.max_bytes
    }

    /// Returns the total number of bits written.
    #[inline]
    pub fn len_bits(&self) -> (r: usize)
        requires
            self.wf(),
        ensures
            r == self@.len(),
    {
        if self.bytes.len() == 0 {
            0
        } else {
            (self.bytes.len() - 1) * 8 + self.bit_count as usize
        }
    }

    /// Returns `true` if no bits have been written.
    #[inline]
    pub fn is_empty(&self) -> (r: bool)
        requires
            self.wf(),
        ensures
            r == (self@.len() == 0),
    {
        self.bytes.len() == 0
    }

    /// Returns a reference to the underlying byte slice.
    #[inline]
    pub fn as_bytes(&self) -> (r: &[u8])
        requires
            self.wf(),
        ensures
            stream_bits(r@, self@.len() as int) == self@,
            8 * r@.len() - 8 < self@.len() <= 8 * r@.len(),
            forall|j: int| self@.len() <= j < 8 * r@.len() ==> !(#[trigger] byte_bit(r@[j / 8], j % 8)),
    {
        self.bytes.as_slice()
    }

    /// Writes a single bit.
    ///
    /// Returns `Err(BufferFull)` if adding a new byte would exceed the
    /// limit; the buffer is then unchanged.
    pub fn write_bit(&mut self, bit: bool) -> (r: Result<(), BufferFull>)
        requires
            old(self).wf(),
            old(self)@.len() + 1 <= usize::MAX - 7,
        ensures
            final(self).wf(),
            final(self).spec_limit() == old(self).spec_limit(),
            r is Ok <==> old(self).can_take(1),
            r is Ok ==> final(self)@ == old(self)@.push(bit),
            r is Err ==> final(self)@ == old(self)@,
    {
        let ghost pre = *old(self);
        let ghost l = pre@.len() as int;
        proof {
            if let Some(m) = pre.spec_limit() {
                lemma_bit_capacity_bounds(l, m as int);
            }
        }
        if self.bit_count == 0 || self.bit_count == 8 {
            proof {
                assert(l % 8 == 0) by {
                    let n = pre.bytes@.len() as int;
                    if n > 0 {
                        assert(l == 8 * n);
                    }
                }
            }
            if let Some(max) = self.max_bytes {
                if self.bytes.len() >= max {
                    proof {
                        let n = pre.bytes@.len() as int;
                        let m = max as int;
                        assert(l == 8 * n);
                        assert((l + 7) / 8 == n) by {
                            vstd::arithmetic::div_mod::lemma_div_multiples_vanish_fancy(n, 7, 8);
                        }
                        assert(bit_capacity(l, m) == 8 * vstd::math::max(m, n));
                        assert(bit_capacity(l, m) <= l);
                        assert(!pre.can_take(1));
                    }
                    return Err(BufferFull);
                }
            }
            self.bytes.push(0);
            self.bit_count = 0;
            proof {
                lemma_zero_byte();
                assert(self@ =~= pre@);
            }
        }
        // Here the tail byte has room: `bit_count` is the stream position of
        // the next bit within it.
        let ghost mid = *self;
        let ghost n = mid.bytes@.len() as int;
        let ghost k = mid.bit_count as int;
        proof {
            assert(mid.bytes@.len() > 0);
            assert(k < 8);
            assert(l == 8 * (n - 1) + k);
            assert(mid.spec_len_bits() == l);
            assert(forall|j: int|
                l <= j < 8 * n ==> !(#[trigger] byte_bit(mid.bytes@[j / 8], j % 8)));
        }
        let i = self.bytes.len() - 1;
        if bit {
            let shift: u8 = 7 - self.bit_count;
            let nb = self.bytes[i] | (1u8 << shift);
            self.bytes[i] = nb;
            proof {
                lemma_byte_set_bit(mid.bytes@[n - 1], nb, k as u64);
            }
        }
        self.bit_count = self.bit_count + 1;
        proof {
            assert(self.spec_len_bits() == l + 1);
            // Every stream position is either before the new bit (unchanged),
            // the new bit itself, or padding (still zero).
            assert forall|t: int| 0 <= t < l + 1 implies self@[t] == pre@.push(bit)[t] by {
                vstd::arithmetic::div_mod::lemma_fundamental_div_mod(t, 8);
                vstd::arithmetic::div_mod::lemma_mod_bound(t, 8);
                if t < l {
                    if t / 8 == n - 1 {
                        assert(t % 8 < k);
                    }
                    assert(byte_bit(self.bytes@[t / 8], t % 8) == byte_bit(
                        mid.bytes@[t / 8],
                        t % 8,
                    ));
                    assert(mid@[t] == pre@[t]);
                } else {
                    assert(t == l && t / 8 == n - 1 && t % 8 == k);
                    if bit {
                        assert(byte_bit(self.bytes@[n - 1], k));
                    } else {
                        assert(!byte_bit(mid.bytes@[n - 1], k));
                    }
                }
            }
            assert(self@ =~= pre@.push(bit));
            assert forall|j: int|
                l + 1 <= j < 8 * n implies !(#[trigger] byte_bit(self.bytes@[j / 8], j % 8)) by {
                vstd::arithmetic::div_mod::lemma_fundamental_div_mod(j, 8);
                vstd::arithmetic::div_mod::lemma_mod_bound(j, 8);
                assert(j / 8 == n - 1 && j % 8 > k);
                assert(byte_bit(self.bytes@[n - 1], j % 8) == byte_bit(mid.bytes@[n - 1], j % 8));
            }
            assert(self.wf());
            if let Some(m) = pre.spec_limit() {
                // A write that went through always fits the capacity.
                if l % 8 == 0 {
                    let nn = pre.bytes@.len() as int;
                    assert((l + 7) / 8 == nn) by {
                        vstd::arithmetic::div_mod::lemma_div_multiples_vanish_fancy(nn, 7, 8);
                    }
                    assert(nn < m as int);
                    assert(bit_capacity(l, m as int) >= 8 * m as int >= l + 8);
                } else {
                    lemma_bit_capacity_bounds(l, m as int);
                }
                assert(pre.can_take(1));
            }
        }
        Ok(())
    }

    /// Writes the lowest `n` bits of `value`, most significant first.
    /// `n` must be at most 64.
    ///
    /// Returns `Err(BufferFull)` if writing would exceed the limit. On error
    /// the buffer keeps the bits of this call that fit: a prefix of the
    /// intended write. Callers that need atomicity should check
    /// `remaining_capacity` before writing.
    pub fn write_bits(&mut self, value: u64, n: u8) -> (r: Result<(), BufferFull>)
        requires
            old(self).wf(),
            n <= 64,
            old(self)@.len() + n <= usize::MAX - 7,
        ensures
            final(self).wf(),
            final(self).spec_limit() == old(self).spec_limit(),
            r is Ok <==> old(self).can_take(n as int),
            final(self)@ == old(self)@ + bits_of(value, n as int).take(old(self).writable(n as int)),
    {
        let ghost pre = *old(self);
        let ghost l = pre@.len() as int;
        proof {
            if let Some(m) = pre.spec_limit() {
                lemma_bit_capacity_bounds(l, m as int);
            }
        }
        proof {
            assert(self@ =~= pre@ + bits_of(value, n as int).take(0));
        }
        let mut i: u8 = 0;
        while i < n
            invariant
                pre == *old(self),
                self.wf(),
                self.spec_limit() == pre.spec_limit(),
                i <= n,
                n <= 64,
                l + n <= usize::MAX - 7,
                l == pre@.len(),
                self@ == pre@ + bits_of(value, n as int).take(i as int),
                pre.spec_limit() matches Some(m) ==> bit_capacity(self@.len() as int, m as int)
                    == bit_capacity(l, m as int) && self@.len() <= bit_capacity(l, m as int),
            decreases n - i,
        {
            let bit = ((value >> ((n - 1 - i) as u64)) & 1) == 1;
            let ghost cur = *self;
            match self.write_bit(bit) {
                Ok(()) => {},
                Err(e) => {
                    proof {
                        assert(pre.spec_limit() is Some);
                        let m = pre.spec_limit()->Some_0 as int;
                        // The write failed exactly at the capacity boundary.
                        assert(!cur.can_take(1));
                        lemma_bit_capacity_bounds(cur@.len() as int, m);
                        assert(cur@.len() == l + i);
                        assert(cur@.len() == bit_capacity(l, m));
                        assert(pre.writable(n as int) == i as int);
                        assert(self@ =~= pre@ + bits_of(value, n as int).take(
                            pre.writable(n as int),
                        ));
                        assert(!pre.can_take(n as int));
                    }
                    return Err(e);
                },
            }
            proof {
                assert(bits_of(value, n as int)[i as int] == bit);
                assert(self@ =~= pre@ + bits_of(value, n as int).take(i as int + 1));
                if let Some(m) = pre.spec_limit() {
                    lemma_bit_capacity_step(cur@.len() as int, m as int);
                }
            }
            i = i + 1;
        }
        proof {
            assert(self@.len() == l + n);
            if let Some(m) = pre.spec_limit() {
                assert(pre.can_take(n as int));
                assert(pre.writable(n as int) == n as int);
            }
            assert(bits_of(value, n as int).take(n as int) =~= bits_of(value, n as int));
        }
        Ok(())
    }

    /// Returns the number of bytes that can still be added before hitting
    /// the limit, or `None` if no limit is set.
    pub fn remaining_capacity(&self) -> (r: Option<usize>)
        requires
            self.wf(),
        ensures
            match self.spec_limit() {
                Option::None => r is None,
                Option::Some(m) => r == Some(
                    vstd::math::max(0, m as int - (self@.len() + 7int) / 8) as usize,
                ),
            },
    {
        proof {
            let n = self.bytes@.len() as int;
            let l = self@.len() as int;
            if n > 0 {
                assert(l == 8 * (n - 1) + self.bit_count as int);
                assert(l + 7 == 8 * n + (self.bit_count as int - 1));
                vstd::arithmetic::div_mod::lemma_div_multiples_vanish_fancy(
                    n,
                    self.bit_count as int - 1,
                    8,
                );
            } else {
                vstd::arithmetic::div_mod::lemma_div_multiples_vanish_fancy(0, 7, 8);
            }
            assert((l + 7int) / 8 == n);
        }
        match self.max_bytes {
            None => None,
            Some(max) => {
                if self.bytes.len() >= max {
                    Some(0)
                } else {
                    Some(max - self.bytes.len())
                }
            },
        }
    }

    /// Consumes the buffer and returns the raw byte vector.
    #[inline]
    pub fn into_bytes(self) -> (r: Vec<u8>)
        requires
            self.wf(),
        ensures
            stream_bits(r@, self@.len() as int) == self@,
            8 * r@.len() - 8 < self@.len() <= 8 * r@.len(),
            forall|j: int| self@.len() <= j < 8 * r@.len() ==> !(#[trigger] byte_bit(r@[j / 8], j % 8)),
    {
        self.bytes
    }
}

impl Default for BitBuffer {
    /// An empty, unlimited buffer.
    fn default() -> (r: Self)
        ensures
            r.wf(),
            r@ == Seq::<bool>::empty(),
            r.spec_limit() is None,
    {
        Self::new()
    }
}

/// A cursor for reading bits sequentially from a `BitBuffer` or a raw byte
/// slice. It never reads past the bit length it was created with, even if
/// more bytes are physically present.
#[derive(Debug)]
pub struct BitReader<'a> {
    bytes: &'a [u8],
    /// Total number of valid bits.
    total_bits: usize,
    /// Current bit position, counted from the start of the stream.
    pos: usize,
}

impl<'a> BitReader<'a> {
    /// The whole bit stream under the cursor.
    pub closed spec fn stream(&self) -> Seq<bool> {
        stream_bits(self.bytes@, self.total_bits as int)
    }

    /// The cursor position.
    pub closed spec fn spec_pos(&self) -> int {
        self.pos as int
    }

    /// The bit length fits the bytes and the cursor is inside the stream.
    pub closed spec fn wf(&self) -> bool {
        self.total_bits <= 8 * self.bytes@.len() && self.pos <= self.total_bits
    }

    /// Creates a new `BitReader` over the given buffer.
    pub fn new(buffer: &'a BitBuffer) -> (r: Self)
        requires
            buffer.wf(),
        ensures
            r.wf(),
            r.stream() == buffer@,
            r.spec_pos() == 0,
    {
        let total_bits = buffer.len_bits();
        Self { bytes: buffer.as_bytes(), total_bits, pos: 0 }
    }

    /// Creates a `BitReader` from raw bytes and a total bit count. The
    /// count must not claim more bits than the bytes hold.
    pub fn from_raw(bytes: &'a [u8], total_bits: usize) -> (r: Self)
        requires
            total_bits <= 8 * bytes@.len(),
        ensures
            r.wf(),
            r.stream() == stream_bits(bytes@, total_bits as int),
            r.spec_pos() == 0,
    {
        Self { bytes, total_bits, pos: 0 }
    }

    /// Returns the number of bits remaining.
    #[inline]
    pub fn remaining(&self) -> (r: usize)
        requires
            self.wf(),
        ensures
            r == self.stream().len() - self.spec_pos(),
    {
        self.total_bits - self.pos
    }

    /// Returns `true` if there are no more bits to read.
    #[inline]
    pub fn is_exhausted(&self) -> (r: bool)
        requires
            self.wf(),
        ensures
            r == (self.spec_pos() == self.stream().len()),
    {
        self.pos >= self.total_bits
    }

    /// Reads a single bit and advances. Returns `None` when exhausted.
    #[inline]
    pub fn read_bit(&mut self) -> (r: Option<bool>)
        requires
            old(self).wf(),
        ensures
            final(self).wf(),
            final(self).stream() == old(self).stream(),
            0 <= old(self).spec_pos() <= old(self).stream().len(),
            old(self).spec_pos() < old(self).stream().len() ==> r == Some(
                old(self).stream()[old(self).spec_pos()],
            ) && final(self).spec_pos() == old(self).spec_pos() + 1,
            old(self).spec_pos() == old(self).stream().len() ==> r is None && final(self).spec_pos() == old(self).spec_pos(),
    {
        if self.pos >= self.total_bits {
            return None;
        }
        let byte_idx = self.pos / 8;
        let bit_idx = (self.pos % 8) as u64;
        proof {
            vstd::arithmetic::div_mod::lemma_fundamental_div_mod(self.pos as int, 8);
            vstd::arithmetic::div_mod::lemma_mod_bound(self.pos as int, 8);
            assert(8 * (self.pos as int / 8) < 8 * self.bytes@.len());
        }
        let byte = self.bytes[byte_idx];
        self.pos = self.pos + 1;
        Some((((byte as u64) >> (7 - bit_idx)) & 1) == 1)
    }

    /// Peeks at the next bit without advancing the position.
    #[inline]
    pub fn peek_bit(&self) -> (r: Option<bool>)
        requires
            self.wf(),
        ensures
            self.spec_pos() < self.stream().len() ==> r == Some(
                self.stream()[self.spec_pos()],
            ),
            self.spec_pos() == self.stream().len() ==> r is None,
    {
        if self.pos >= self.total_bits {
            return None;
        }
        let byte_idx = self.pos / 8;
        let bit_idx = (self.pos % 8) as u64;
        proof {
            vstd::arithmetic::div_mod::lemma_fundamental_div_mod(self.pos as int, 8);
            vstd::arithmetic::div_mod::lemma_mod_bound(self.pos as int, 8);
            assert(8 * (self.pos as int / 8) < 8 * self.bytes@.len());
        }
        let byte = self.bytes[byte_idx];
        Some((((byte as u64) >> (7 - bit_idx)) & 1) == 1)
    }

    /// Reads `n` bits as a `u64`, most significant first. Returns `None` if
    /// fewer than `n` bits remain; the position is then unchanged.
    /// `n` must be at most 64; `n == 0` reads nothing and returns `Some(0)`.
    pub fn read_bits(&mut self, n: u8) -> (r: Option<u64>)
        requires
            old(self).wf(),
            n <= 64,
        ensures
            final(self).wf(),
            final(self).stream() == old(self).stream(),
            0 <= old(self).spec_pos() <= old(self).stream().len(),
            old(self).spec_pos() + n <= old(self).stream().len() ==> {
                &&& r matches Some(v)
                &&& v as int == int_of_bits(
                    old(self).stream().subrange(
                        old(self).spec_pos(),
                        old(self).spec_pos() + n,
                    ),
                )
                &&& final(self).spec_pos() == old(self).spec_pos() + n
            },
            old(self).spec_pos() + n > old(self).stream().len() ==> r is None && final(self).spec_pos() == old(self).spec_pos(),
    {
        if n == 0 {
            proof {
                let s = self.stream().subrange(self.spec_pos(), self.spec_pos());
                assert(s =~= Seq::<bool>::empty());
            }
            return Some(0);
        }
        if self.remaining() < n as usize {
            return None;
        }
        let ghost start = self.spec_pos();
        let ghost stream = self.stream();
        let mut value: u64 = 0;
        let mut i: u8 = 0;
        proof {
            assert(stream.subrange(start, start) =~= Seq::<bool>::empty());
            vstd::arithmetic::power2::lemma2_to64();
        }
        while i < n
            invariant
                self.wf(),
                self.stream() == stream,
                i <= n,
                n <= 64,
                0 <= start,
                self.spec_pos() == start + i,
                start + n <= stream.len(),
                value as int == int_of_bits(stream.subrange(start, start + i)),
                value < pow2(i as nat),
            decreases n - i,
        {
            let ghost old_value = value;
            let b = match self.read_bit() {
                Some(b) => b,
                None => {
                    proof {
                        assert(false);
                    }
                    false
                },
            };
            let bu: u64 = if b {
                1
            } else {
                0
            };
            proof {
                if (i as nat) < 63 {
                    vstd::arithmetic::power2::lemma_pow2_strictly_increases(i as nat, 63);
                }
                vstd::arithmetic::power2::lemma2_to64_rest();
                assert((old_value << 1u64) | bu == 2 * old_value + bu) by (bit_vector)
                    requires
                        old_value < 0x8000_0000_0000_0000u64,
                        bu <= 1,
                ;
            }
            value = (value << 1) | bu;
            i = i + 1;
            proof {
                let sub = stream.subrange(start, start + i - 1);
                assert(stream.subrange(start, start + i) =~= sub.push(b));
                crate::bits::lemma_int_of_bits_push(sub, b);
                vstd::arithmetic::power2::lemma_pow2_unfold(i as nat);
            }
        }
        Some(value)
    }
}

} // verus!
