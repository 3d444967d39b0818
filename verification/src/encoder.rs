//! The compressor: delta-of-delta timestamp coding and XOR value coding
//! into a `BitBuffer`, with the emitted stream proved equal to the spec
//! stream of the encoded points.

use vstd::prelude::*;
use crate::bitbuffer::bit_capacity;
use crate::bitbuffer::lemma_bit_capacity_within;
use crate::bitbuffer::BitBuffer;
use crate::bitbuffer::BufferFull;
use crate::bits::bits_of;
use crate::bits::lemma_take_concat;
use crate::bits::stream_bits;
use crate::wire::dod_codeword;
use crate::wire::dod_of;
use crate::wire::delta_of;
use crate::wire::enc_state;
use crate::wire::fits_window;
use crate::wire::header_bits;
use crate::wire::init_state;
use crate::wire::lemma_lz_tz;
use crate::wire::lemma_stream_of_push;
use crate::wire::mask64;
use crate::wire::point_codeword;
use crate::wire::sentinel_bits;
use crate::wire::step;
use crate::wire::stream_of;
use crate::wire::value_codeword;
use crate::wire::value_next;
use crate::wire::window_wf;
use crate::wire::CodecState;

verus! {

/// A single time-series data point: a timestamp (seconds since an arbitrary
/// epoch) and a value carried as the raw bit pattern of an IEEE-754 double
/// (`f64::to_bits` form). Working on bit patterns keeps equality bitwise:
/// `-0.0` and `0.0` differ, and every NaN payload is preserved.
#[derive(Debug, Clone, Copy, PartialEq, Eq, Structural)]
pub struct DataPoint {
    pub timestamp: u64,
    pub value_bits: u64,
}

impl DataPoint {
    /// Creates a new `DataPoint` from a timestamp and raw value bits.
    pub fn new(timestamp: u64, value_bits: u64) -> (r: Self)
        ensures
            r == (DataPoint { timestamp, value_bits }),
    {
        Self { timestamp, value_bits }
    }
}

/// Returns a mask with the lowest `n` bits set. Handles `n == 64`.
#[inline]
fn bitmask(n: u8) -> (r: u64)
    ensures
        r == mask64(n as u64),
{
    if n >= 64 {
        0xFFFF_FFFF_FFFF_FFFFu64
    } else {
        proof {
            assert(1u64 << n >= 1) by (bit_vector)
                requires
                    n < 64,
            ;
        }
        (1u64 << n) - 1
    }
}

/// The Gorilla compressor.
///
/// Timestamps are stored as delta-of-delta codewords with variable-length
/// prefixes; values as XOR codewords sharing a leading/trailing-zero
/// window. The `hist` ghost field records every successfully encoded point;
/// while `clean` holds, the buffer is bit-for-bit `stream_of(hist)`.
pub struct Encoder {
    buf: BitBuffer,
    /// Number of data points encoded so far.
    count: u64,
    /// Previous timestamp.
    prev_timestamp: u64,
    /// Previous delta between timestamps.
    prev_delta: i64,
    /// Previous value as raw bits.
    prev_value_bits: u64,
    /// Number of leading zeros in the previous XOR window (64 = none yet).
    prev_leading_zeros: u8,
    /// Number of trailing zeros in the previous XOR window (64 = none yet).
    prev_trailing_zeros: u8,
    /// Whether `finish()` has been called.
    finished: bool,
    /// The points successfully encoded so far.
    hist: Ghost<Seq<DataPoint>>,
    /// Whether every write so far committed in full. A failed write leaves
    /// a partial codeword behind; the stream equation then no longer holds.
    clean: Ghost<bool>,
}

impl Encoder {
    /// The bits written so far.
    pub closed spec fn bits(&self) -> Seq<bool> {
        self.buf@
    }

    /// The byte limit of the underlying buffer, if any.
    pub closed spec fn spec_limit(&self) -> Option<usize> {
        self.buf.spec_limit()
    }

    /// The points successfully encoded so far.
    pub closed spec fn hist(&self) -> Seq<DataPoint> {
        self.hist@
    }

    /// Whether every write so far committed in full.
    pub closed spec fn clean(&self) -> bool {
        self.clean@
    }

    /// The point count.
    pub closed spec fn spec_count(&self) -> u64 {
        self.count
    }

    /// Whether `finish()` has succeeded.
    pub closed spec fn spec_finished(&self) -> bool {
        self.finished
    }

    /// The compression state held in the scalar fields.
    pub closed spec fn state(&self) -> CodecState {
        CodecState {
            prev_timestamp: self.prev_timestamp,
            prev_delta: self.prev_delta,
            prev_value_bits: self.prev_value_bits,
            prev_leading_zeros: self.prev_leading_zeros,
            prev_trailing_zeros: self.prev_trailing_zeros,
        }
    }

    /// Whether `n` more bits fit under the byte limit.
    pub open spec fn fits(&self, n: int) -> bool {
        match self.spec_limit() {
            Option::None => true,
            Option::Some(m) => self.bits().len() + n <= 8 * (m as int),
        }
    }

    /// How many more bits fit under the byte limit; meaningful only when a
    /// limit is set.
    pub open spec fn room(&self) -> int {
        match self.spec_limit() {
            Option::None => 0,
            Option::Some(m) => 8 * (m as int) - self.bits().len(),
        }
    }

    /// The exact bits encoding `dp` would append in a clean state.
    pub open spec fn next_bits(&self, dp: DataPoint) -> Seq<bool> {
        if self.hist().len() == 0 {
            header_bits(dp)
        } else {
            point_codeword(dp, enc_state(self.hist()))
        }
    }

    /// The exact number of bits encoding `dp` would add in a clean state.
    pub open spec fn next_cost(&self, dp: DataPoint) -> int {
        self.next_bits(dp).len() as int
    }

    /// The encoder invariant: the buffer is well formed and within its
    /// limit, the window fields are a valid window or the "none yet"
    /// sentinel, the count matches the history, and — while `clean` — the
    /// buffer holds exactly the spec stream of the history and the scalar
    /// fields hold the spec state.
    pub closed spec fn wf(&self) -> bool {
        &&& self.buf.wf()
        &&& (self.spec_limit() matches Some(m) ==> self.bits().len() <= 8 * (m as int))
        &&& window_wf(self.state())
        &&& self.count as int == self.hist@.len()
        &&& 2 * self.count as int <= self.bits().len()
        &&& (self.clean@ ==> {
            &&& (!self.finished ==> self.bits() == stream_of(self.hist@))
            &&& (self.finished ==> self.bits() == stream_of(self.hist@) + sentinel_bits())
            &&& (self.hist@.len() >= 1 ==> self.state() == enc_state(self.hist@))
            &&& (self.hist@.len() == 0 ==> self.state() == CodecState {
                prev_timestamp: 0,
                prev_delta: 0,
                prev_value_bits: 0,
                prev_leading_zeros: 64,
                prev_trailing_zeros: 64,
            })
        })
    }

    /// While every write has committed in full, the buffer holds exactly
    /// the spec stream of the encoded history, with the end-of-stream
    /// marker appended once `finish` has succeeded.
    pub proof fn lemma_stream_invariant(&self)
        requires
            self.wf(),
            self.clean(),
        ensures
            !self.spec_finished() ==> self.bits() == stream_of(self.hist()),
            self.spec_finished() ==> self.bits() == stream_of(self.hist()) + sentinel_bits(),
    {
    }

    /// Creates a new `Encoder` with an unlimited buffer.
    pub fn new() -> (r: Self)
        ensures
            r.wf(),
            r.clean(),
            r.hist() == Seq::<DataPoint>::empty(),
            r.spec_count() == 0,
            !r.spec_finished(),
            r.bits() == Seq::<bool>::empty(),
            r.spec_limit() is None,
    {
        let r = Self {
            buf: BitBuffer::with_capacity(128),
            count: 0,
            prev_timestamp: 0,
            prev_delta: 0,
            prev_value_bits: 0,
            prev_leading_zeros: 64,
            prev_trailing_zeros: 64,
            finished: false,
            hist: Ghost(Seq::empty()),
            clean: Ghost(true),
        };
        proof {
            assert(stream_of(r.hist@) =~= Seq::<bool>::empty());
        }
        r
    }

    /// Creates a new `Encoder` whose buffer will not grow beyond
    /// `max_bytes` bytes. Once the limit is reached, `encode()` returns
    /// `Err(BufferFull)`.
    pub fn with_limit(max_bytes: usize) -> (r: Self)
        ensures
            r.wf(),
            r.clean(),
            r.hist() == Seq::<DataPoint>::empty(),
            r.spec_count() == 0,
            !r.spec_finished(),
            r.bits() == Seq::<bool>::empty(),
            r.spec_limit() == Some(max_bytes),
    {
        let r = Self {
            buf: BitBuffer::with_limit(max_bytes),
            count: 0,
            prev_timestamp: 0,
            prev_delta: 0,
            prev_value_bits: 0,
            prev_leading_zeros: 64,
            prev_trailing_zeros: 64,
            finished: false,
            hist: Ghost(Seq::empty()),
            clean: Ghost(true),
        };
        proof {
            assert(stream_of(r.hist@) =~= Seq::<bool>::empty());
        }
        r
    }

    /// Encodes a data point into the compressed stream.
    ///
    /// Points should be appended in increasing timestamp order; order is
    /// not checked, and any sequence is reproduced bit-exactly on decode as
    /// long as its deltas avoid the codeword table's upper edge values.
    ///
    /// Returns `Err(BufferFull)` if the byte limit would be exceeded. The
    /// partial write is kept, so the buffer may then no longer be a decodable
    /// stream; `count()` is unchanged.
    pub fn encode(&mut self, dp: DataPoint) -> (r: Result<(), BufferFull>)
        requires
            old(self).wf(),
            !old(self).spec_finished(),
            old(self).bits().len() + 146 <= usize::MAX - 7,
        ensures
            final(self).wf(),
            !final(self).spec_finished(),
            final(self).spec_limit() == old(self).spec_limit(),
            old(self).bits().len() <= final(self).bits().len() <= old(self).bits().len() + 146,
            r is Ok ==> final(self).spec_count() == old(self).spec_count() + 1 && final(self).hist() == old(self).hist().push(dp) && final(self).clean() == old(self).clean(),
            r is Err ==> final(self).spec_count() == old(self).spec_count() && final(self).hist()
                == old(self).hist() && !final(self).clean(),
            old(self).clean() ==> (r is Ok <==> old(self).fits(old(self).next_cost(dp))),
            old(self).clean() && r is Err ==> old(self).spec_limit() is Some && final(self).bits()
                == old(self).bits() + old(self).next_bits(dp).take(old(self).room()),
    {
        let ghost pre = *old(self);
        proof {
            if let Some(m) = pre.spec_limit() {
                lemma_bit_capacity_within(pre.bits().len() as int, m as int);
            }
        }
        if self.count == 0 {
            match self.buf.write_bits(dp.timestamp, 64) {
                Ok(()) => {},
                Err(e) => {
                    self.clean = Ghost(false);
                    proof {
                        if pre.clean@ {
                            lemma_take_concat(
                                bits_of(dp.timestamp, 64),
                                bits_of(dp.value_bits, 64),
                                pre.room(),
                            );
                            assert(self.bits() =~= pre.bits() + pre.next_bits(dp).take(
                                pre.room(),
                            ));
                        }
                    }
                    return Err(e);
                },
            }
            proof {
                if let Some(m) = pre.spec_limit() {
                    lemma_bit_capacity_within(self.bits().len() as int, m as int);
                }
            }
            match self.buf.write_bits(dp.value_bits, 64) {
                Ok(()) => {},
                Err(e) => {
                    self.clean = Ghost(false);
                    proof {
                        if pre.clean@ {
                            lemma_take_concat(
                                bits_of(dp.timestamp, 64),
                                bits_of(dp.value_bits, 64),
                                pre.room(),
                            );
                            assert(self.bits() =~= pre.bits() + pre.next_bits(dp).take(
                                pre.room(),
                            ));
                        }
                    }
                    return Err(e);
                },
            }
            self.prev_timestamp = dp.timestamp;
            self.prev_value_bits = dp.value_bits;
            self.count = 1;
            proof {
                self.hist = Ghost(pre.hist@.push(dp));
                if pre.clean@ {
                    assert(pre.bits() =~= Seq::<bool>::empty()) by {
                        assert(stream_of(pre.hist@) =~= Seq::<bool>::empty());
                    }
                    lemma_stream_of_push(pre.hist@, dp);
                    assert(self.bits() =~= header_bits(dp));
                    assert(self.state() == init_state(dp));
                }
            }
            Ok(())
        } else {
            let ghost st = pre.state();
            let delta = dp.timestamp.wrapping_sub(self.prev_timestamp) as i64;
            let dod = delta.wrapping_sub(self.prev_delta);
            proof {
                assert(delta == delta_of(dp, st));
                assert(dod == dod_of(dp, st));
            }
            match self.write_dod(dod) {
                Ok(()) => {},
                Err(e) => {
                    self.clean = Ghost(false);
                    proof {
                        assert(point_codeword(dp, st).len() >= dod_codeword(dod).len());
                        if pre.clean@ {
                            lemma_take_concat(
                                dod_codeword(dod),
                                value_codeword(dp.value_bits, st),
                                pre.room(),
                            );
                            assert(self.bits() =~= pre.bits() + pre.next_bits(dp).take(
                                pre.room(),
                            ));
                        }
                    }
                    return Err(e);
                },
            }
            match self.encode_value(dp.value_bits) {
                Ok(()) => {},
                Err(e) => {
                    self.clean = Ghost(false);
                    proof {
                        if pre.clean@ {
                            lemma_take_concat(
                                dod_codeword(dod),
                                value_codeword(dp.value_bits, st),
                                pre.room(),
                            );
                            assert(self.bits() =~= pre.bits() + pre.next_bits(dp).take(
                                pre.room(),
                            ));
                        }
                    }
                    return Err(e);
                },
            }
            self.prev_delta = delta;
            self.prev_timestamp = dp.timestamp;
            self.count = self.count + 1;
            proof {
                self.hist = Ghost(pre.hist@.push(dp));
                assert(self.bits() =~= pre.bits() + point_codeword(dp, st));
                if pre.clean@ {
                    lemma_stream_of_push(pre.hist@, dp);
                    assert(self.state() == step(dp, st));
                }
            }
            Ok(())
        }
    }

    /// Writes one delta-of-delta codeword.
    fn write_dod(&mut self, dod: i64) -> (r: Result<(), BufferFull>)
        requires
            old(self).buf.wf(),
            old(self).buf@.len() + 68 <= usize::MAX - 7,
            (old(self).spec_limit() matches Some(m) ==> old(self).buf@.len() <= 8 * (m as int)),
        ensures
            final(self).buf.wf(),
            final(self).spec_limit() == old(self).spec_limit(),
            (final(self).spec_limit() matches Some(m) ==> final(self).buf@.len() <= 8 * (
            m as int)),
            final(self).state() == old(self).state(),
            final(self).count == old(self).count,
            final(self).finished == old(self).finished,
            final(self).hist == old(self).hist,
            final(self).clean == old(self).clean,
            old(self).buf@.len() <= final(self).buf@.len() <= old(self).buf@.len() + 68,
            r is Ok <==> old(self).fits(dod_codeword(dod).len() as int),
            r is Ok ==> final(self).buf@ == old(self).buf@ + dod_codeword(dod),
            r is Err ==> old(self).spec_limit() is Some && final(self).buf@ == old(self).buf@
                + dod_codeword(dod).take(old(self).room()),
    {
        let ghost pre = *old(self);
        let ghost cw = dod_codeword(dod);
        proof {
            if let Some(m) = pre.spec_limit() {
                lemma_bit_capacity_within(pre.buf@.len() as int, m as int);
            }
        }
        if dod == 0 {
            let r = self.buf.write_bit(false);
            proof {
                assert(bits_of(0u64, 1) =~= seq![false]) by {
                    assert((0u64 >> 0u64) & 1 == 0) by (bit_vector);
                }
                if r is Ok {
                    assert(self.buf@ =~= pre.buf@ + cw);
                } else {
                    assert(pre.room() == 0);
                    assert(self.buf@ =~= pre.buf@ + cw.take(0));
                }
            }
            r
        } else if -63 <= dod && dod <= 64 {
            self.write_dod_parts(0b10u64, 2, (dod as u64) & 0x7f, 7, Ghost(cw))
        } else if -255 <= dod && dod <= 256 {
            self.write_dod_parts(0b110u64, 3, (dod as u64) & 0x1ff, 9, Ghost(cw))
        } else if -2047 <= dod && dod <= 2048 {
            self.write_dod_parts(0b1110u64, 4, (dod as u64) & 0xfff, 12, Ghost(cw))
        } else {
            self.write_dod_parts(0b1111u64, 4, dod as u64, 64, Ghost(cw))
        }
    }

    /// Writes a prefix and a payload, together forming the codeword `cw`.
    fn write_dod_parts(
        &mut self,
        prefix: u64,
        prefix_len: u8,
        payload: u64,
        payload_len: u8,
        Ghost(cw): Ghost<Seq<bool>>,
    ) -> (r: Result<(), BufferFull>)
        requires
            old(self).buf.wf(),
            prefix_len <= 4,
            payload_len <= 64,
            old(self).buf@.len() + 68 <= usize::MAX - 7,
            (old(self).spec_limit() matches Some(m) ==> old(self).buf@.len() <= 8 * (m as int)),
            cw == bits_of(prefix, prefix_len as int) + bits_of(payload, payload_len as int),
        ensures
            final(self).buf.wf(),
            final(self).spec_limit() == old(self).spec_limit(),
            (final(self).spec_limit() matches Some(m) ==> final(self).buf@.len() <= 8 * (
            m as int)),
            final(self).state() == old(self).state(),
            final(self).count == old(self).count,
            final(self).finished == old(self).finished,
            final(self).hist == old(self).hist,
            final(self).clean == old(self).clean,
            old(self).buf@.len() <= final(self).buf@.len() <= old(self).buf@.len() + prefix_len
                + payload_len,
            r is Ok <==> old(self).fits(cw.len() as int),
            r is Ok ==> final(self).buf@ == old(self).buf@ + cw,
            r is Err ==> old(self).spec_limit() is Some && final(self).buf@ == old(self).buf@
                + cw.take(old(self).room()),
    {
        let ghost pre = *old(self);
        proof {
            if let Some(m) = pre.spec_limit() {
                lemma_bit_capacity_within(pre.buf@.len() as int, m as int);
            }
        }
        match self.buf.write_bits(prefix, prefix_len) {
            Ok(()) => {},
            Err(e) => {
                proof {
                    lemma_take_concat(
                        bits_of(prefix, prefix_len as int),
                        bits_of(payload, payload_len as int),
                        pre.room(),
                    );
                }
                return Err(e);
            },
        }
        proof {
            if let Some(m) = pre.spec_limit() {
                lemma_bit_capacity_within(self.buf@.len() as int, m as int);
            }
        }
        match self.buf.write_bits(payload, payload_len) {
            Ok(()) => {},
            Err(e) => {
                proof {
                    lemma_take_concat(
                        bits_of(prefix, prefix_len as int),
                        bits_of(payload, payload_len as int),
                        pre.room(),
                    );
                    assert(self.buf@ =~= pre.buf@ + cw.take(pre.room()));
                }
                return Err(e);
            },
        }
        proof {
            assert(self.buf@ =~= pre.buf@ + cw);
        }
        Ok(())
    }

    /// Writes one XOR value codeword and updates the window fields.
    #[verifier::rlimit(60)]
    fn encode_value(&mut self, value_bits: u64) -> (r: Result<(), BufferFull>)
        requires
            old(self).buf.wf(),
            window_wf(old(self).state()),
            old(self).buf@.len() + 78 <= usize::MAX - 7,
            (old(self).spec_limit() matches Some(m) ==> old(self).buf@.len() <= 8 * (m as int)),
        ensures
            final(self).buf.wf(),
            final(self).spec_limit() == old(self).spec_limit(),
            (final(self).spec_limit() matches Some(m) ==> final(self).buf@.len() <= 8 * (
            m as int)),
            window_wf(final(self).state()),
            final(self).count == old(self).count,
            final(self).finished == old(self).finished,
            final(self).hist == old(self).hist,
            final(self).clean == old(self).clean,
            old(self).buf@.len() <= final(self).buf@.len() <= old(self).buf@.len() + 78,
            r is Ok <==> old(self).fits(value_codeword(value_bits, old(self).state()).len() as int),
            r is Err ==> old(self).spec_limit() is Some && final(self).buf@ == old(self).buf@
                + value_codeword(value_bits, old(self).state()).take(old(self).room()),
            r is Ok ==> final(self).buf@ == old(self).buf@ + value_codeword(
                value_bits,
                old(self).state(),
            ) && final(self).state() == value_next(value_bits, old(self).state()),
            r is Err ==> final(self).state() == old(self).state(),
    {
        let ghost pre = *old(self);
        let ghost st = pre.state();
        let ghost cw = value_codeword(value_bits, st);
        proof {
            if let Some(m) = pre.spec_limit() {
                lemma_bit_capacity_within(pre.buf@.len() as int, m as int);
            }
        }
        let xor = value_bits ^ self.prev_value_bits;
        if xor == 0 {
            let r = self.buf.write_bit(false);
            match r {
                Ok(()) => {
                    self.prev_value_bits = value_bits;
                    proof {
                        assert(bits_of(0u64, 1) =~= seq![false]) by {
                            assert((0u64 >> 0u64) & 1 == 0) by (bit_vector);
                        }
                        assert(self.buf@ =~= pre.buf@ + cw);
                    }
                    Ok(())
                },
                Err(e) => {
                    proof {
                        assert(pre.room() == 0);
                        assert(self.buf@ =~= pre.buf@ + cw.take(0));
                    }
                    Err(e)
                },
            }
        } else {
            proof {
                lemma_lz_tz(xor);
            }
            let leading = (xor.leading_zeros() as u8);
            let trailing = (xor.trailing_zeros() as u8);
            match self.buf.write_bit(true) {
                Ok(()) => {},
                Err(e) => {
                    proof {
                        assert(pre.room() == 0);
                        assert(self.buf@ =~= pre.buf@ + cw.take(0));
                    }
                    return Err(e);
                },
            }
            proof {
                if let Some(m) = pre.spec_limit() {
                    lemma_bit_capacity_within(self.buf@.len() as int, m as int);
                }
            }
            if leading >= self.prev_leading_zeros && trailing >= self.prev_trailing_zeros {
                // The meaningful bits fit within the previous window.
                proof {
                    assert(fits_window(xor, st));
                }
                let ghost mb_g = (64 - st.prev_leading_zeros - st.prev_trailing_zeros) as int;
                let ghost payload_g = bits_of(
                    (xor >> (st.prev_trailing_zeros as u64)) & mask64(mb_g as u64),
                    mb_g,
                );
                proof {
                    assert(bits_of(0b10u64, 2) =~= seq![true, false]) by {
                        assert((0b10u64 >> 1u64) & 1 == 1 && (0b10u64 >> 0u64) & 1 == 0)
                            by (bit_vector);
                    }
                    assert(cw == bits_of(0b10u64, 2) + payload_g);
                }
                match self.buf.write_bit(false) {
                    Ok(()) => {},
                    Err(e) => {
                        proof {
                            assert(pre.room() == 1);
                            lemma_take_concat(bits_of(0b10u64, 2), payload_g, 1);
                            assert(bits_of(0b10u64, 2).take(1) =~= seq![true]);
                            assert(self.buf@ =~= pre.buf@ + cw.take(1));
                        }
                        return Err(e);
                    },
                }
                proof {
                    if let Some(m) = pre.spec_limit() {
                        lemma_bit_capacity_within(self.buf@.len() as int, m as int);
                    }
                }
                let meaningful_bits = 64 - self.prev_leading_zeros - self.prev_trailing_zeros;
                let meaningful_value = (xor >> (self.prev_trailing_zeros as u64)) & bitmask(
                    meaningful_bits,
                );
                match self.buf.write_bits(meaningful_value, meaningful_bits) {
                    Ok(()) => {},
                    Err(e) => {
                        proof {
                            lemma_take_concat(bits_of(0b10u64, 2), payload_g, pre.room());
                            assert(self.buf@ =~= pre.buf@ + cw.take(pre.room()));
                        }
                        return Err(e);
                    },
                }
                self.prev_value_bits = value_bits;
                proof {
                    assert(self.buf@ =~= pre.buf@ + cw);
                }
                Ok(())
            } else {
                // New window.
                let ghost lz_g = vstd::std_specs::bits::u64_leading_zeros(xor);
                let ghost tz_g = vstd::std_specs::bits::u64_trailing_zeros(xor) as int;
                let ghost mb_g = 64 - lz_g - tz_g;
                let ghost a1 = bits_of(0b11u64, 2);
                let ghost a2 = bits_of(lz_g as u64, 6);
                let ghost a3 = bits_of((mb_g - 1) as u64, 6);
                let ghost a4 = bits_of((xor >> (tz_g as u64)) & mask64(mb_g as u64), mb_g);
                proof {
                    assert(bits_of(0b11u64, 2) =~= seq![true, true]) by {
                        assert((0b11u64 >> 1u64) & 1 == 1 && (0b11u64 >> 0u64) & 1 == 1)
                            by (bit_vector);
                    }
                    assert(cw == ((a1 + a2) + a3) + a4);
                }
                match self.buf.write_bit(true) {
                    Ok(()) => {},
                    Err(e) => {
                        proof {
                            assert(pre.room() == 1);
                            lemma_take_concat((a1 + a2) + a3, a4, 1);
                            lemma_take_concat(a1 + a2, a3, 1);
                            lemma_take_concat(a1, a2, 1);
                            assert(a1.take(1) =~= seq![true]);
                            assert(self.buf@ =~= pre.buf@ + cw.take(1));
                        }
                        return Err(e);
                    },
                }
                proof {
                    if let Some(m) = pre.spec_limit() {
                        lemma_bit_capacity_within(self.buf@.len() as int, m as int);
                    }
                }
                let meaningful_bits = 64 - leading - trailing;
                match self.buf.write_bits(leading as u64, 6) {
                    Ok(()) => {},
                    Err(e) => {
                        proof {
                            lemma_take_concat((a1 + a2) + a3, a4, pre.room());
                            lemma_take_concat(a1 + a2, a3, pre.room());
                            lemma_take_concat(a1, a2, pre.room());
                            assert(a1 =~= seq![true, true]);
                            assert(self.buf@ =~= pre.buf@ + cw.take(pre.room()));
                        }
                        return Err(e);
                    },
                }
                proof {
                    if let Some(m) = pre.spec_limit() {
                        lemma_bit_capacity_within(self.buf@.len() as int, m as int);
                    }
                }
                match self.buf.write_bits((meaningful_bits - 1) as u64, 6) {
                    Ok(()) => {},
                    Err(e) => {
                        proof {
                            lemma_take_concat((a1 + a2) + a3, a4, pre.room());
                            lemma_take_concat(a1 + a2, a3, pre.room());
                            assert(self.buf@ =~= pre.buf@ + cw.take(pre.room()));
                        }
                        return Err(e);
                    },
                }
                proof {
                    if let Some(m) = pre.spec_limit() {
                        lemma_bit_capacity_within(self.buf@.len() as int, m as int);
                    }
                }
                let meaningful_value = (xor >> (trailing as u64)) & bitmask(meaningful_bits);
                match self.buf.write_bits(meaningful_value, meaningful_bits) {
                    Ok(()) => {},
                    Err(e) => {
                        proof {
                            lemma_take_concat((a1 + a2) + a3, a4, pre.room());
                            assert(self.buf@ =~= pre.buf@ + cw.take(pre.room()));
                        }
                        return Err(e);
                    },
                }
                self.prev_leading_zeros = leading;
                self.prev_trailing_zeros = trailing;
                self.prev_value_bits = value_bits;
                proof {
                    assert(self.buf@ =~= pre.buf@ + cw);
                }
                Ok(())
            }
        }
    }

    /// Writes the end-of-stream marker. Idempotent: once it has succeeded,
    /// further calls change nothing and return `Ok`.
    ///
    /// Returns `Err(BufferFull)` if the marker does not fit; the block is
    /// then left un-terminated.
    pub fn finish(&mut self) -> (r: Result<(), BufferFull>)
        requires
            old(self).wf(),
            !old(self).spec_finished() ==> old(self).bits().len() + 68 <= usize::MAX - 7,
        ensures
            final(self).wf(),
            final(self).spec_limit() == old(self).spec_limit(),
            final(self).spec_count() == old(self).spec_count(),
            final(self).hist() == old(self).hist(),
            old(self).spec_finished() ==> r is Ok && *final(self) == *old(self),
            !old(self).spec_finished() ==> (r is Ok <==> old(self).fits(68)),
            !old(self).spec_finished() && r is Ok ==> final(self).spec_finished() && final(self).bits() == old(self).bits() + sentinel_bits() && final(self).clean() == old(self).clean(),
            r is Err ==> !final(self).spec_finished() && !final(self).clean(),
            r is Err ==> old(self).spec_limit() is Some && final(self).bits() == old(self).bits()
                + sentinel_bits().take(old(self).room()),
            old(self).bits().len() <= final(self).bits().len() <= old(self).bits().len() + 68,
    {
        if self.finished {
            return Ok(());
        }
        let ghost pre = *old(self);
        proof {
            if let Some(m) = pre.spec_limit() {
                lemma_bit_capacity_within(pre.bits().len() as int, m as int);
            }
        }
        match self.buf.write_bits(0b1111, 4) {
            Ok(()) => {},
            Err(e) => {
                self.clean = Ghost(false);
                proof {
                    lemma_take_concat(
                        bits_of(0b1111u64, 4),
                        bits_of(0xFFFF_FFFF_FFFF_FFFFu64, 64),
                        pre.room(),
                    );
                    assert(self.bits() =~= pre.bits() + sentinel_bits().take(pre.room()));
                }
                return Err(e);
            },
        }
        proof {
            if let Some(m) = pre.spec_limit() {
                lemma_bit_capacity_within(self.bits().len() as int, m as int);
            }
        }
        match self.buf.write_bits(0xFFFF_FFFF_FFFF_FFFF, 64) {
            Ok(()) => {},
            Err(e) => {
                self.clean = Ghost(false);
                proof {
                    lemma_take_concat(
                        bits_of(0b1111u64, 4),
                        bits_of(0xFFFF_FFFF_FFFF_FFFFu64, 64),
                        pre.room(),
                    );
                    assert(self.bits() =~= pre.bits() + sentinel_bits().take(pre.room()));
                }
                return Err(e);
            },
        }
        self.finished = true;
        proof {
            assert(self.bits() =~= pre.bits() + sentinel_bits());
        }
        Ok(())
    }

    /// Returns a reference to the underlying `BitBuffer`.
    pub fn buffer(&self) -> (r: &BitBuffer)
        requires
            self.wf(),
        ensures
            r.wf(),
            r@ == self.bits(),
            r.spec_limit() == self.spec_limit(),
    {
        &self.buf
    }

    /// Consumes the encoder and returns the underlying `BitBuffer`.
    pub fn into_buffer(self) -> (r: BitBuffer)
        requires
            self.wf(),
        ensures
            r.wf(),
            r@ == self.bits(),
            r.spec_limit() == self.spec_limit(),
    {
        self.buf
    }

    /// Consumes the encoder and returns the compressed block: the bytes,
    /// the exact bit length, and the point count. The block never exceeds
    /// the byte limit the encoder was given.
    pub fn into_compressed(self) -> (r: CompressedBlock)
        requires
            self.wf(),
        ensures
            r.wf(),
            r.count == self.spec_count(),
            r.total_bits == self.bits().len(),
            r.stream() == self.bits(),
            self.spec_limit() matches Some(m) ==> r.bytes@.len() <= m,
    {
        let total_bits = self.buf.len_bits();
        let count = self.count;
        let bytes = self.buf.into_bytes();
        CompressedBlock { bytes, total_bits, count }
    }

    /// Returns the number of data points encoded so far.
    pub fn count(&self) -> (r: u64)
        ensures
            r == self.spec_count(),
    {
        self.count
    }
}

impl Default for Encoder {
    /// A fresh unlimited encoder.
    fn default() -> (r: Self)
        ensures
            r.wf(),
            r.clean(),
            r.hist() == Seq::<DataPoint>::empty(),
            r.spec_count() == 0,
            !r.spec_finished(),
            r.bits() == Seq::<bool>::empty(),
            r.spec_limit() is None,
    {
        Self::new()
    }
}

/// A compressed block of encoded time-series data.
#[derive(Debug, Clone)]
pub struct CompressedBlock {
    /// The compressed byte data.
    pub bytes: Vec<u8>,
    /// Total number of valid bits in `bytes`.
    pub total_bits: usize,
    /// Number of data points in this block.
    pub count: u64,
}

impl CompressedBlock {
    /// The byte count matches the bit count: no missing bits, at most 7
    /// padding bits in the final byte.
    pub open spec fn wf(&self) -> bool {
        self.total_bits <= 8 * self.bytes@.len() && 8 * self.bytes@.len() < self.total_bits + 8
    }

    /// The bit stream the block carries.
    pub open spec fn stream(&self) -> Seq<bool> {
        stream_bits(self.bytes@, self.total_bits as int)
    }
}

} // verus!
