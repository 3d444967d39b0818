//! The decompressor: an eager decoder returning all points and a lazy
//! cursor yielding one point at a time, both proved to compute exactly the
//! parse described by the spec functions in `wire`.

use vstd::prelude::*;
use vstd::arithmetic::power2::pow2;
use crate::bitbuffer::BitReader;
use crate::bits::lemma_int_of_bits_bound;
use crate::bits::lemma_u64_to_i64;
use crate::encoder::CompressedBlock;
use crate::encoder::DataPoint;
use crate::wire::dec_advance;
use crate::wire::dec_err;
use crate::wire::dec_points;
use crate::wire::dec_window_wf;
use crate::wire::first_point;
use crate::wire::init_dec_state;
use crate::wire::iter_items;
use crate::wire::iter_rest;
use crate::wire::lemma_read_dod_advances;
use crate::wire::lemma_read_value_advances;
use crate::wire::sign_extend_spec;
use crate::wire::spec_decode;
use crate::wire::spec_read_dod;
use crate::wire::spec_read_value;
use crate::wire::CodecState;

verus! {

/// Error type for decoding failures.
#[derive(Debug, Clone, PartialEq, Eq, Structural)]
pub enum DecodeError {
    /// The compressed stream ended unexpectedly.
    UnexpectedEnd,
    /// The stream contains no data points.
    Empty,
}

/// Sign-extends an `n`-bit value stored in a `u64` to a full `i64`.
fn sign_extend(value: u64, bits: u8) -> (r: i64)
    requires
        1 <= bits <= 64,
        value < pow2(bits as nat),
    ensures
        r as int == sign_extend_spec(value, bits as int),
{
    proof {
        vstd::arithmetic::power2::lemma2_to64();
        vstd::arithmetic::power2::lemma2_to64_rest();
        lemma_u64_to_i64(value);
    }
    if bits == 64 {
        #[verifier::truncate] (value as i64)
    } else {
        proof {
            vstd::bits::lemma_u64_shl_is_mul(1u64, bits as u64);
            assert(1u64 << (bits as u64) == pow2(bits as nat)) by {
                vstd::arithmetic::power2::lemma_pow2_strictly_increases(
                    bits as nat,
                    64,
                );
            }
        }
        if (value >> ((bits - 1) as u64)) & 1 == 1 {
            let ext = value | (0xFFFF_FFFF_FFFF_FFFFu64 << (bits as u64));
            proof {
                let b = bits as u64;
                assert(ext == value - (1u64 << b) + 0x1_0000_0000_0000_0000
                    && ext >= 0x8000_0000_0000_0000 && value >= (1u64 << b) / 2) by (bit_vector)
                    requires
                        1 <= b < 64,
                        value < (1u64 << b),
                        (value >> vstd::prelude::sub(b, 1)) & 1 == 1,
                        ext == value | (0xFFFF_FFFF_FFFF_FFFFu64 << b),
                ;
                lemma_u64_to_i64(ext);
                vstd::arithmetic::power2::lemma_pow2_unfold(bits as nat);
                assert(ext as int == value + 0x1_0000_0000_0000_0000 - pow2(bits as nat));
            }
            #[verifier::truncate] (ext as i64)
        } else {
            proof {
                let b = bits as u64;
                assert(value < (1u64 << b) / 2) by (bit_vector)
                    requires
                        1 <= b < 64,
                        value < (1u64 << b),
                        (value >> vstd::prelude::sub(b, 1)) & 1 != 1,
                ;
                vstd::arithmetic::power2::lemma_pow2_unfold(bits as nat);
            }
            value as i64
        }
    }
}

/// One parsed delta-of-delta codeword: a value or the end-of-stream marker.
enum DodResult {
    Value(i64),
    EndOfStream,
}

/// The Gorilla decompressor.
///
/// Reconstructs time-series data points from a compressed bit stream,
/// returning exactly what the spec-level parse describes.
pub struct Decoder;

impl Decoder {
    /// Decodes all data points from a `CompressedBlock`. The block's bit
    /// length must not claim more bits than its bytes hold.
    pub fn decode(block: &CompressedBlock) -> (r: Result<Vec<DataPoint>, DecodeError>)
        requires
            block.total_bits <= 8 * block.bytes@.len(),
        ensures
            match spec_decode(block.stream()) {
                Ok(pts) => r matches Ok(v) && v@ == pts,
                Err(e) => r == Err::<Vec<DataPoint>, DecodeError>(e),
            },
    {
        let mut reader = BitReader::from_raw(block.bytes.as_slice(), block.total_bits);
        Self::decode_from_reader(&mut reader)
    }

    /// Decodes all data points from raw bytes and a total bit count.
    pub fn decode_raw(bytes: &[u8], total_bits: usize) -> (r: Result<
        Vec<DataPoint>,
        DecodeError,
    >)
        requires
            total_bits <= 8 * bytes@.len(),
        ensures
            match spec_decode(crate::bits::stream_bits(bytes@, total_bits as int)) {
                Ok(pts) => r matches Ok(v) && v@ == pts,
                Err(e) => r == Err::<Vec<DataPoint>, DecodeError>(e),
            },
    {
        let mut reader = BitReader::from_raw(bytes, total_bits);
        Self::decode_from_reader(&mut reader)
    }

    /// Returns a lazy cursor that decodes one data point per `next` call.
    pub fn iter<'a>(block: &'a CompressedBlock) -> (r: DecoderIter<'a>)
        requires
            block.total_bits <= 8 * block.bytes@.len(),
        ensures
            r.wf(),
            r.remaining() == iter_items(block.stream()),
    {
        let reader = BitReader::from_raw(block.bytes.as_slice(), block.total_bits);
        DecoderIter {
            reader,
            state: IterState::Initial,
            prev_timestamp: 0,
            prev_delta: 0,
            prev_value_bits: 0,
            prev_leading_zeros: 0,
            prev_trailing_zeros: 0,
            done: false,
        }
    }

    fn decode_from_reader(reader: &mut BitReader) -> (r: Result<Vec<DataPoint>, DecodeError>)
        requires
            old(reader).wf(),
            old(reader).spec_pos() == 0,
        ensures
            match spec_decode(old(reader).stream()) {
                Ok(pts) => r matches Ok(v) && v@ == pts,
                Err(e) => r == Err::<Vec<DataPoint>, DecodeError>(e),
            },
    {
        let ghost bits = reader.stream();
        let ts = match reader.read_bits(64) {
            Some(v) => v,
            None => {
                return Err(DecodeError::Empty);
            },
        };
        let val_bits = match reader.read_bits(64) {
            Some(v) => v,
            None => {
                return Err(DecodeError::UnexpectedEnd);
            },
        };
        proof {
            lemma_int_of_bits_bound(bits.subrange(0, 64));
            lemma_int_of_bits_bound(bits.subrange(64, 128));
            assert(first_point(bits) == DataPoint { timestamp: ts, value_bits: val_bits });
        }
        let ghost st0 = init_dec_state(ts, val_bits);
        let mut points: Vec<DataPoint> = Vec::new();
        points.push(DataPoint::new(ts, val_bits));

        let mut prev_timestamp: u64 = ts;
        let mut prev_delta: i64 = 0;
        let mut prev_value_bits: u64 = val_bits;
        let mut prev_leading_zeros: u8 = 0;
        let mut prev_trailing_zeros: u8 = 0;
        let ghost mut st = st0;

        loop
            invariant
                reader.wf(),
                reader.stream() == bits,
                bits == old(reader).stream(),
                128 <= reader.spec_pos() <= bits.len(),
                st == (CodecState {
                    prev_timestamp,
                    prev_delta,
                    prev_value_bits,
                    prev_leading_zeros,
                    prev_trailing_zeros,
                }),
                dec_window_wf(st),
                points@.len() >= 1,
                points@[0] == first_point(bits),
                dec_points(bits, 128, st0) == points@.skip(1) + dec_points(
                    bits,
                    reader.spec_pos(),
                    st,
                ),
                dec_err(bits, 128, st0) == dec_err(bits, reader.spec_pos(), st),
                st0 == init_dec_state(first_point(bits).timestamp, first_point(bits).value_bits),
            decreases bits.len() - reader.spec_pos(),
        {
            let ghost pos = reader.spec_pos();
            proof {
                lemma_read_dod_advances(bits, pos);
            }
            let dod = match Self::decode_delta_of_delta(reader) {
                Ok(DodResult::Value(v)) => v,
                Ok(DodResult::EndOfStream) => {
                    proof {
                        assert(dec_points(bits, pos, st) =~= Seq::<DataPoint>::empty());
                        assert(points@.skip(1) + dec_points(bits, pos, st) =~= points@.skip(1));
                        assert(seq![first_point(bits)] + points@.skip(1) =~= points@);
                    }
                    return Ok(points);
                },
                Err(e) => {
                    return Err(e);
                },
            };
            let delta = prev_delta.wrapping_add(dod);
            let new_ts = prev_timestamp.wrapping_add_signed(delta);
            prev_timestamp = new_ts;
            prev_delta = delta;
            let ghost st1 = dec_advance(st, dod);
            proof {
                lemma_read_value_advances(bits, reader.spec_pos(), st1);
            }
            let (vb, lead, trail) = match Self::decode_value(
                reader,
                Ghost(st1),
                prev_value_bits,
                prev_leading_zeros,
                prev_trailing_zeros,
            ) {
                Ok(v) => v,
                Err(e) => {
                    return Err(e);
                },
            };
            prev_value_bits = vb;
            prev_leading_zeros = lead;
            prev_trailing_zeros = trail;
            points.push(DataPoint::new(new_ts, vb));
            proof {
                let st2 = CodecState {
                    prev_timestamp,
                    prev_delta,
                    prev_value_bits,
                    prev_leading_zeros,
                    prev_trailing_zeros,
                };
                let dp = DataPoint { timestamp: new_ts, value_bits: vb };
                assert(dec_points(bits, pos, st) == seq![dp] + dec_points(
                    bits,
                    reader.spec_pos(),
                    st2,
                ));
                assert(dec_err(bits, pos, st) == dec_err(bits, reader.spec_pos(), st2));
                assert(points@.skip(1) =~= points@.drop_last().skip(1) + seq![dp]);
                assert(points@.drop_last().skip(1) + (seq![dp] + dec_points(
                    bits,
                    reader.spec_pos(),
                    st2,
                )) =~= points@.skip(1) + dec_points(bits, reader.spec_pos(), st2));
                st = st2;
            }
        }
    }

    /// Reads one delta-of-delta codeword.
    fn decode_delta_of_delta(reader: &mut BitReader) -> (r: Result<DodResult, DecodeError>)
        requires
            old(reader).wf(),
        ensures
            final(reader).wf(),
            final(reader).stream() == old(reader).stream(),
            0 <= final(reader).spec_pos() <= final(reader).stream().len(),
            match spec_read_dod(old(reader).stream(), old(reader).spec_pos()) {
                None => r == Err::<DodResult, DecodeError>(DecodeError::UnexpectedEnd),
                Some((d, p2)) => {
                    &&& final(reader).spec_pos() == p2
                    &&& (d matches Some(v) ==> r == Ok::<DodResult, DecodeError>(
                        DodResult::Value(v),
                    ))
                    &&& (d is None ==> r == Ok::<DodResult, DecodeError>(DodResult::EndOfStream))
                },
            },
    {
        let ghost bits = reader.stream();
        let ghost pos = reader.spec_pos();
        let bit = match reader.read_bit() {
            Some(b) => b,
            None => {
                return Err(DecodeError::UnexpectedEnd);
            },
        };
        if !bit {
            // '0' => dod == 0
            return Ok(DodResult::Value(0));
        }
        let bit = match reader.read_bit() {
            Some(b) => b,
            None => {
                return Err(DecodeError::UnexpectedEnd);
            },
        };
        if !bit {
            // '10' => 7-bit value
            let raw = match reader.read_bits(7) {
                Some(v) => v,
                None => {
                    return Err(DecodeError::UnexpectedEnd);
                },
            };
            proof {
                lemma_int_of_bits_bound(bits.subrange(pos + 2, pos + 9));
            }
            let dod = sign_extend(raw, 7);
            return Ok(DodResult::Value(dod));
        }
        let bit = match reader.read_bit() {
            Some(b) => b,
            None => {
                return Err(DecodeError::UnexpectedEnd);
            },
        };
        if !bit {
            // '110' => 9-bit value
            let raw = match reader.read_bits(9) {
                Some(v) => v,
                None => {
                    return Err(DecodeError::UnexpectedEnd);
                },
            };
            proof {
                lemma_int_of_bits_bound(bits.subrange(pos + 3, pos + 12));
            }
            let dod = sign_extend(raw, 9);
            return Ok(DodResult::Value(dod));
        }
        let bit = match reader.read_bit() {
            Some(b) => b,
            None => {
                return Err(DecodeError::UnexpectedEnd);
            },
        };
        if !bit {
            // '1110' => 12-bit value
            let raw = match reader.read_bits(12) {
                Some(v) => v,
                None => {
                    return Err(DecodeError::UnexpectedEnd);
                },
            };
            proof {
                lemma_int_of_bits_bound(bits.subrange(pos + 4, pos + 16));
            }
            let dod = sign_extend(raw, 12);
            return Ok(DodResult::Value(dod));
        }
        // '1111' => 64-bit value, or the end-of-stream sentinel
        let raw = match reader.read_bits(64) {
            Some(v) => v,
            None => {
                return Err(DecodeError::UnexpectedEnd);
            },
        };
        if raw == 0xFFFF_FFFF_FFFF_FFFF {
            return Ok(DodResult::EndOfStream);
        }
        proof {
            lemma_int_of_bits_bound(bits.subrange(pos + 4, pos + 68));
            vstd::arithmetic::power2::lemma2_to64_rest();
        }
        let dod = sign_extend(raw, 64);
        Ok(DodResult::Value(dod))
    }

    /// Reads one XOR value codeword against the stored window, returning
    /// the new value bits and window. A window descriptor claiming more
    /// than 64 bits is clamped to a zero trailing count.
    fn decode_value(
        reader: &mut BitReader,
        Ghost(st): Ghost<CodecState>,
        prev_value_bits: u64,
        prev_leading_zeros: u8,
        prev_trailing_zeros: u8,
    ) -> (r: Result<(u64, u8, u8), DecodeError>)
        requires
            old(reader).wf(),
            st.prev_value_bits == prev_value_bits,
            st.prev_leading_zeros == prev_leading_zeros,
            st.prev_trailing_zeros == prev_trailing_zeros,
            dec_window_wf(st),
        ensures
            final(reader).wf(),
            final(reader).stream() == old(reader).stream(),
            0 <= final(reader).spec_pos() <= final(reader).stream().len(),
            match spec_read_value(old(reader).stream(), old(reader).spec_pos(), st) {
                None => r == Err::<(u64, u8, u8), DecodeError>(DecodeError::UnexpectedEnd),
                Some((st2, p2)) => {
                    &&& final(reader).spec_pos() == p2
                    &&& r == Ok::<(u64, u8, u8), DecodeError>(
                        (st2.prev_value_bits, st2.prev_leading_zeros, st2.prev_trailing_zeros),
                    )
                },
            },
    {
        let ghost bits = reader.stream();
        let ghost pos = reader.spec_pos();
        let bit = match reader.read_bit() {
            Some(b) => b,
            None => {
                return Err(DecodeError::UnexpectedEnd);
            },
        };
        if !bit {
            // XOR is zero — same value, window unchanged.
            return Ok((prev_value_bits, prev_leading_zeros, prev_trailing_zeros));
        }
        let control = match reader.read_bit() {
            Some(b) => b,
            None => {
                return Err(DecodeError::UnexpectedEnd);
            },
        };
        if !control {
            // '10' — reuse the previous window.
            let meaningful_bits = 64 - prev_leading_zeros - prev_trailing_zeros;
            let meaningful = match reader.read_bits(meaningful_bits) {
                Some(v) => v,
                None => {
                    return Err(DecodeError::UnexpectedEnd);
                },
            };
            let xor = meaningful << (prev_trailing_zeros as u64);
            let value_bits = prev_value_bits ^ xor;
            Ok((value_bits, prev_leading_zeros, prev_trailing_zeros))
        } else {
            // '11' — a new window descriptor.
            let leading = match reader.read_bits(6) {
                Some(v) => v,
                None => {
                    return Err(DecodeError::UnexpectedEnd);
                },
            } as u8;
            let mb_minus_one = match reader.read_bits(6) {
                Some(v) => v,
                None => {
                    return Err(DecodeError::UnexpectedEnd);
                },
            } as u8;
            proof {
                lemma_int_of_bits_bound(bits.subrange(pos + 2, pos + 8));
                lemma_int_of_bits_bound(bits.subrange(pos + 8, pos + 14));
                vstd::arithmetic::power2::lemma2_to64();
            }
            let meaningful_bits = mb_minus_one + 1;
            // A descriptor claiming more than 64 bits cannot come from the
            // encoder; clamp instead of wrapping below zero.
            let trailing: u8 = if leading <= 64 - meaningful_bits {
                64 - leading - meaningful_bits
            } else {
                0
            };
            let meaningful = match reader.read_bits(meaningful_bits) {
                Some(v) => v,
                None => {
                    return Err(DecodeError::UnexpectedEnd);
                },
            };
            let xor = meaningful << (trailing as u64);
            let value_bits = prev_value_bits ^ xor;
            Ok((value_bits, leading, trailing))
        }
    }
}

/// Where the lazy decoder stands: before the header, before the second
/// point (the next codeword carries the first delta), or in the steady
/// state.
#[derive(Debug)]
enum IterState {
    Initial,
    SecondPoint,
    Subsequent,
}

/// A lazy cursor that yields one decoded `DataPoint` per `next` call.
/// After the end-of-stream marker or the first error it yields nothing
/// further.
pub struct DecoderIter<'a> {
    reader: BitReader<'a>,
    state: IterState,
    prev_timestamp: u64,
    prev_delta: i64,
    prev_value_bits: u64,
    prev_leading_zeros: u8,
    prev_trailing_zeros: u8,
    done: bool,
}

impl<'a> DecoderIter<'a> {
    /// The decoder state held in the scalar fields.
    pub closed spec fn dec_state(&self) -> CodecState {
        CodecState {
            prev_timestamp: self.prev_timestamp,
            prev_delta: self.prev_delta,
            prev_value_bits: self.prev_value_bits,
            prev_leading_zeros: self.prev_leading_zeros,
            prev_trailing_zeros: self.prev_trailing_zeros,
        }
    }

    /// The cursor is inside its stream, the stored window is valid, and
    /// before the header (and before the second point) the fields still
    /// hold their initial zeros.
    pub closed spec fn wf(&self) -> bool {
        &&& self.reader.wf()
        &&& 0 <= self.reader.spec_pos() <= self.reader.stream().len()
        &&& dec_window_wf(self.dec_state())
        &&& (!self.done && (self.state matches IterState::Initial) ==> self.reader.spec_pos()
            == 0 && self.prev_delta == 0 && self.prev_leading_zeros == 0
            && self.prev_trailing_zeros == 0)
        &&& (!self.done && (self.state matches IterState::SecondPoint) ==> self.prev_delta == 0)
    }

    /// The items this cursor will still yield.
    pub closed spec fn remaining(&self) -> Seq<Result<DataPoint, DecodeError>> {
        if self.done {
            Seq::empty()
        } else if (self.state matches IterState::Initial) {
            iter_items(self.reader.stream())
        } else {
            iter_rest(self.reader.stream(), self.reader.spec_pos(), self.dec_state())
        }
    }

    /// Yields the next decoded point, an error, or `None` when exhausted.
    #[verifier::rlimit(100)]
    pub fn next(&mut self) -> (r: Option<Result<DataPoint, DecodeError>>)
        requires
            old(self).wf(),
        ensures
            final(self).wf(),
            old(self).remaining().len() == 0 ==> r is None && final(self).remaining()
                == Seq::<Result<DataPoint, DecodeError>>::empty(),
            old(self).remaining().len() > 0 ==> r == Some(old(self).remaining()[0]) && final(self).remaining() == old(self).remaining().drop_first(),
    {
        let ghost bits = self.reader.stream();
        if self.done {
            return None;
        }
        match self.state {
            IterState::Initial => {
                let ts = match self.reader.read_bits(64) {
                    Some(v) => v,
                    None => {
                        self.done = true;
                        return None;  // empty stream
                    },
                };
                let val_bits = match self.reader.read_bits(64) {
                    Some(v) => v,
                    None => {
                        self.done = true;
                        return Some(Err(DecodeError::UnexpectedEnd));
                    },
                };
                proof {
                    lemma_int_of_bits_bound(bits.subrange(0, 64));
                    lemma_int_of_bits_bound(bits.subrange(64, 128));
                    assert(first_point(bits) == DataPoint { timestamp: ts, value_bits: val_bits });
                }
                self.prev_timestamp = ts;
                self.prev_value_bits = val_bits;
                self.state = IterState::SecondPoint;
                proof {
                    assert(self.dec_state() == init_dec_state(ts, val_bits));
                    assert(self.remaining() =~= iter_items(bits).drop_first());
                }
                Some(Ok(DataPoint::new(ts, val_bits)))
            },
            IterState::SecondPoint | IterState::Subsequent => {
                let ghost pos = self.reader.spec_pos();
                let ghost st = self.dec_state();
                proof {
                    lemma_read_dod_advances(bits, pos);
                }
                let dod = match Decoder::decode_delta_of_delta(&mut self.reader) {
                    Ok(DodResult::Value(v)) => v,
                    Ok(DodResult::EndOfStream) => {
                        self.done = true;
                        proof {
                            assert(iter_rest(bits, pos, st) =~= Seq::<
                                Result<DataPoint, DecodeError>,
                            >::empty());
                        }
                        return None;
                    },
                    Err(e) => {
                        self.done = true;
                        proof {
                            assert(dec_points(bits, pos, st) =~= Seq::<DataPoint>::empty());
                            assert(iter_rest(bits, pos, st) =~= seq![
                                Err::<DataPoint, DecodeError>(DecodeError::UnexpectedEnd),
                            ]);
                        }
                        return Some(Err(e));
                    },
                };
                match self.state {
                    IterState::SecondPoint => {
                        // The first codeword after the header carries the
                        // first delta itself; the stored delta is still 0,
                        // so adding is the same as assigning.
                        self.prev_delta = dod;
                        self.state = IterState::Subsequent;
                    },
                    _ => {
                        self.prev_delta = self.prev_delta.wrapping_add(dod);
                    },
                }
                self.prev_timestamp = self.prev_timestamp.wrapping_add_signed(self.prev_delta);
                let ghost st1 = dec_advance(st, dod);
                proof {
                    lemma_read_value_advances(bits, self.reader.spec_pos(), st1);
                    assert(st1.prev_delta == self.prev_delta);
                    assert(st1.prev_timestamp == self.prev_timestamp);
                }
                match Decoder::decode_value(
                    &mut self.reader,
                    Ghost(st1),
                    self.prev_value_bits,
                    self.prev_leading_zeros,
                    self.prev_trailing_zeros,
                ) {
                    Ok((vb, lead, trail)) => {
                        self.prev_value_bits = vb;
                        self.prev_leading_zeros = lead;
                        self.prev_trailing_zeros = trail;
                        let dp = DataPoint::new(self.prev_timestamp, vb);
                        proof {
                            let st2 = self.dec_state();
                            let pos3 = self.reader.spec_pos();
                            assert(dec_points(bits, pos, st) == seq![dp] + dec_points(
                                bits,
                                pos3,
                                st2,
                            ));
                            assert(dec_err(bits, pos, st) == dec_err(bits, pos3, st2));
                            assert(iter_rest(bits, pos, st) =~= seq![
                                Ok::<DataPoint, DecodeError>(dp),
                            ] + iter_rest(bits, pos3, st2));
                        }
                        Some(Ok(dp))
                    },
                    Err(e) => {
                        self.done = true;
                        proof {
                            assert(dec_points(bits, pos, st) =~= Seq::<DataPoint>::empty());
                            assert(iter_rest(bits, pos, st) =~= seq![
                                Err::<DataPoint, DecodeError>(DecodeError::UnexpectedEnd),
                            ]);
                        }
                        Some(Err(e))
                    },
                }
            },
        }
    }
}

} // verus!
