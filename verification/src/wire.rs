//! The wire format as a mathematical object: spec functions giving the
//! exact bit stream the encoder emits for a sequence of points, and the
//! exact parse the decoder performs on a bit stream. The executable encoder
//! and decoder are verified against these functions, and the round-trip
//! theorem is proved about them.

use vstd::prelude::*;
use vstd::arithmetic::power2::pow2;
use vstd::std_specs::bits::u64_leading_zeros;
use vstd::std_specs::bits::u64_trailing_zeros;
use crate::bits::bits_of;
use crate::bits::int_of_bits;
use crate::decoder::DecodeError;
use crate::encoder::DataPoint;

verus! {

/// A mask of the low `n` bits.
pub open spec fn mask64(n: u64) -> u64 {
    if n >= 64 {
        0xFFFF_FFFF_FFFF_FFFFu64
    } else {
        ((1u64 << n) - 1) as u64
    }
}

/// Wrapping addition on signed 64-bit values.
pub open spec fn wadd_i64(a: i64, b: i64) -> i64 {
    vstd::wrapping::i64_specs::wrapping_add(a, b)
}

/// Wrapping subtraction on signed 64-bit values.
pub open spec fn wsub_i64(a: i64, b: i64) -> i64 {
    vstd::wrapping::i64_specs::wrapping_sub(a, b)
}

/// A timestamp advanced by a signed delta, wrapping.
pub open spec fn wadd_ts(ts: u64, d: i64) -> u64 {
    vstd::wrapping::u64_specs::wrapping_add_signed(ts, d)
}

/// The per-stream compression state after some prefix of points. The
/// encoder and the decoder both carry exactly this state; the encoder marks
/// "no window yet" with leading = trailing = 64, the decoder starts at 0.
pub struct CodecState {
    pub prev_timestamp: u64,
    pub prev_delta: i64,
    pub prev_value_bits: u64,
    pub prev_leading_zeros: u8,
    pub prev_trailing_zeros: u8,
}

/// The stored XOR window is either the "none yet" sentinel or a genuine
/// window with at least one meaningful bit.
pub open spec fn window_wf(st: CodecState) -> bool {
    ||| (st.prev_leading_zeros == 64 && st.prev_trailing_zeros == 64)
    ||| st.prev_leading_zeros + st.prev_trailing_zeros <= 63
}

// ── The emitted stream ──────────────────────────────────────────────

/// The end-of-stream marker: the widest prefix plus an all-ones payload.
pub open spec fn sentinel_bits() -> Seq<bool> {
    bits_of(0b1111u64, 4) + bits_of(0xFFFF_FFFF_FFFF_FFFFu64, 64)
}

/// The delta-of-delta codeword: a unary-style prefix choosing a payload
/// width, then the low bits of the value in two's complement.
pub open spec fn dod_codeword(dod: i64) -> Seq<bool> {
    if dod == 0 {
        bits_of(0u64, 1)
    } else if -63 <= dod && dod <= 64 {
        bits_of(0b10u64, 2) + bits_of((dod as u64) & 0x7f, 7)
    } else if -255 <= dod && dod <= 256 {
        bits_of(0b110u64, 3) + bits_of((dod as u64) & 0x1ff, 9)
    } else if -2047 <= dod && dod <= 2048 {
        bits_of(0b1110u64, 4) + bits_of((dod as u64) & 0xfff, 12)
    } else {
        bits_of(0b1111u64, 4) + bits_of(dod as u64, 64)
    }
}

/// Whether a nonzero XOR fits inside the stored window. False whenever the
/// window is the "none yet" sentinel, because a nonzero value has at most
/// 63 leading zeros.
pub open spec fn fits_window(xor: u64, st: CodecState) -> bool {
    u64_leading_zeros(xor) >= st.prev_leading_zeros && u64_trailing_zeros(xor)
        >= st.prev_trailing_zeros
}

/// The XOR value codeword: `0` for an unchanged value, `10` plus the
/// meaningful bits inside the stored window, or `11` plus a fresh window
/// descriptor and its meaningful bits.
pub open spec fn value_codeword(value_bits: u64, st: CodecState) -> Seq<bool> {
    let xor = value_bits ^ st.prev_value_bits;
    if xor == 0 {
        bits_of(0u64, 1)
    } else if fits_window(xor, st) {
        let mb = 64 - st.prev_leading_zeros - st.prev_trailing_zeros;
        bits_of(0b10u64, 2) + bits_of(
            (xor >> (st.prev_trailing_zeros as u64)) & mask64(mb as u64),
            mb as int,
        )
    } else {
        let lead = u64_leading_zeros(xor);
        let trail = u64_trailing_zeros(xor) as int;
        let mb = 64 - lead - trail;
        bits_of(0b11u64, 2) + bits_of(lead as u64, 6) + bits_of((mb - 1) as u64, 6) + bits_of(
            (xor >> (trail as u64)) & mask64(mb as u64),
            mb,
        )
    }
}

/// The window state after a value codeword: kept on an unchanged value or
/// a reused window, replaced on a fresh window.
pub open spec fn value_next(value_bits: u64, st: CodecState) -> CodecState {
    let xor = value_bits ^ st.prev_value_bits;
    if xor == 0 || fits_window(xor, st) {
        CodecState { prev_value_bits: value_bits, ..st }
    } else {
        CodecState {
            prev_value_bits: value_bits,
            prev_leading_zeros: u64_leading_zeros(xor) as u8,
            prev_trailing_zeros: u64_trailing_zeros(xor) as u8,
            ..st
        }
    }
}

/// The signed delta from the previous timestamp, wrapping.
pub open spec fn delta_of(p: DataPoint, st: CodecState) -> i64 {
    vstd::wrapping::u64_specs::wrapping_sub(p.timestamp, st.prev_timestamp) as i64
}

/// The delta-of-delta the encoder emits for `p` in state `st`.
pub open spec fn dod_of(p: DataPoint, st: CodecState) -> i64 {
    wsub_i64(delta_of(p, st), st.prev_delta)
}

/// The codeword pair one point adds to the stream.
pub open spec fn point_codeword(p: DataPoint, st: CodecState) -> Seq<bool> {
    dod_codeword(dod_of(p, st)) + value_codeword(p.value_bits, st)
}

/// The state after encoding one more point.
pub open spec fn step(p: DataPoint, st: CodecState) -> CodecState {
    let v = value_next(p.value_bits, st);
    CodecState { prev_timestamp: p.timestamp, prev_delta: delta_of(p, st), ..v }
}

/// The encoder state right after the first point.
pub open spec fn init_state(p: DataPoint) -> CodecState {
    CodecState {
        prev_timestamp: p.timestamp,
        prev_delta: 0,
        prev_value_bits: p.value_bits,
        prev_leading_zeros: 64,
        prev_trailing_zeros: 64,
    }
}

/// The 128-bit header: first timestamp, then first value bits.
pub open spec fn header_bits(p: DataPoint) -> Seq<bool> {
    bits_of(p.timestamp, 64) + bits_of(p.value_bits, 64)
}

/// The codewords of `points` encoded starting from state `st`.
pub open spec fn stream_from(points: Seq<DataPoint>, st: CodecState) -> Seq<bool>
    decreases points.len(),
{
    if points.len() == 0 {
        Seq::empty()
    } else {
        point_codeword(points[0], st) + stream_from(points.drop_first(), step(points[0], st))
    }
}

/// The state after encoding `points` starting from state `st`.
pub open spec fn state_from(points: Seq<DataPoint>, st: CodecState) -> CodecState
    decreases points.len(),
{
    if points.len() == 0 {
        st
    } else {
        state_from(points.drop_first(), step(points[0], st))
    }
}

/// The whole un-terminated stream for a point sequence: nothing for no
/// points, else the header for the first point and codewords for the rest.
pub open spec fn stream_of(points: Seq<DataPoint>) -> Seq<bool> {
    if points.len() == 0 {
        Seq::empty()
    } else {
        header_bits(points[0]) + stream_from(points.drop_first(), init_state(points[0]))
    }
}

/// The encoder state after a nonempty point sequence.
pub open spec fn enc_state(points: Seq<DataPoint>) -> CodecState
    recommends
        points.len() >= 1,
{
    state_from(points.drop_first(), init_state(points[0]))
}

pub proof fn lemma_stream_from_push(points: Seq<DataPoint>, st: CodecState, p: DataPoint)
    ensures
        stream_from(points.push(p), st) == stream_from(points, st) + point_codeword(
            p,
            state_from(points, st),
        ),
        state_from(points.push(p), st) == step(p, state_from(points, st)),
    decreases points.len(),
{
    reveal_with_fuel(stream_from, 2);
    reveal_with_fuel(state_from, 2);
    if points.len() == 0 {
        assert(points.push(p)[0] == p);
        assert(points.push(p).drop_first() =~= Seq::<DataPoint>::empty());
        assert(stream_from(points.push(p), st) =~= point_codeword(p, st));
        assert(stream_from(points, st) + point_codeword(p, st) =~= point_codeword(p, st));
    } else {
        assert(points.push(p)[0] == points[0]);
        assert(points.push(p).drop_first() =~= points.drop_first().push(p));
        lemma_stream_from_push(points.drop_first(), step(points[0], st), p);
        assert(stream_from(points.push(p), st) =~= stream_from(points, st) + point_codeword(
            p,
            state_from(points, st),
        ));
    }
}

/// Appending a point to a nonempty history appends its codeword to the
/// stream and steps the state.
pub proof fn lemma_stream_of_push(points: Seq<DataPoint>, p: DataPoint)
    ensures
        points.len() == 0 ==> stream_of(points.push(p)) == header_bits(p) && enc_state(
            points.push(p),
        ) == init_state(p),
        points.len() >= 1 ==> stream_of(points.push(p)) == stream_of(points) + point_codeword(
            p,
            enc_state(points),
        ) && enc_state(points.push(p)) == step(p, enc_state(points)),
{
    if points.len() == 0 {
        assert(points.push(p)[0] == p);
        assert(points.push(p).drop_first() =~= Seq::<DataPoint>::empty());
        assert(stream_of(points.push(p)) =~= header_bits(p));
    } else {
        assert(points.push(p)[0] == points[0]);
        assert(points.push(p).drop_first() =~= points.drop_first().push(p));
        lemma_stream_from_push(points.drop_first(), init_state(points[0]), p);
        assert(stream_of(points.push(p)) =~= stream_of(points) + point_codeword(
            p,
            enc_state(points),
        ));
    }
}

/// A nonzero value has at most 63 leading plus trailing zeros: some bit is
/// set, and it lies above the trailing zeros and below the leading ones.
pub proof fn lemma_lz_tz(x: u64)
    requires
        x != 0,
    ensures
        0 <= u64_leading_zeros(x) <= 63,
        0 <= u64_trailing_zeros(x) <= 63,
        u64_leading_zeros(x) + u64_trailing_zeros(x) <= 63,
{
    vstd::std_specs::bits::axiom_u64_leading_zeros(x);
    vstd::std_specs::bits::axiom_u64_trailing_zeros(x);
    let lz = u64_leading_zeros(x) as u64;
    let tz = u64_trailing_zeros(x) as u64;
    if u64_leading_zeros(x) + u64_trailing_zeros(x) > 63 {
        let j = (63 - lz) as u64;
        assert((x >> j) & 1u64 == 0u64);
        assert(false);
    }
}

// ── The parse ───────────────────────────────────────────────────────

/// The unsigned value of the `n` bits at `pos`.
pub open spec fn word_at(bits: Seq<bool>, pos: int, n: int) -> u64
    recommends
        0 <= pos,
        0 <= n <= 64,
        pos + n <= bits.len(),
{
    int_of_bits(bits.subrange(pos, pos + n)) as u64
}

/// The signed value of `raw` read as an `n`-bit two's-complement field.
pub open spec fn sign_extend_spec(raw: u64, n: int) -> int
    recommends
        1 <= n <= 64,
        raw < pow2(n as nat),
{
    if raw < pow2((n - 1) as nat) {
        raw as int
    } else {
        raw as int - pow2(n as nat) as int
    }
}

/// One delta-of-delta codeword parsed at `pos`: `None` on a short read,
/// `Some((None, p))` for the sentinel, `Some((Some(dod), p))` for a value,
/// where `p` is the position after the codeword.
pub open spec fn spec_read_dod(bits: Seq<bool>, pos: int) -> Option<(Option<i64>, int)> {
    if pos + 1 > bits.len() {
        None
    } else if !bits[pos] {
        Some((Some(0i64), pos + 1))
    } else if pos + 2 > bits.len() {
        None
    } else if !bits[pos + 1] {
        if pos + 9 <= bits.len() {
            Some((Some(sign_extend_spec(word_at(bits, pos + 2, 7), 7) as i64), pos + 9))
        } else {
            None
        }
    } else if pos + 3 > bits.len() {
        None
    } else if !bits[pos + 2] {
        if pos + 12 <= bits.len() {
            Some((Some(sign_extend_spec(word_at(bits, pos + 3, 9), 9) as i64), pos + 12))
        } else {
            None
        }
    } else if pos + 4 > bits.len() {
        None
    } else if !bits[pos + 3] {
        if pos + 16 <= bits.len() {
            Some((Some(sign_extend_spec(word_at(bits, pos + 4, 12), 12) as i64), pos + 16))
        } else {
            None
        }
    } else if pos + 68 <= bits.len() {
        let raw = word_at(bits, pos + 4, 64);
        if raw == 0xFFFF_FFFF_FFFF_FFFFu64 {
            Some((None, pos + 68))
        } else {
            Some((Some(sign_extend_spec(raw, 64) as i64), pos + 68))
        }
    } else {
        None
    }
}

/// One value codeword parsed at `pos` against state `st`: `None` on a short
/// read, else the state with the new value bits and window, and the
/// position after the codeword. A window descriptor claiming more than 64
/// bits is clamped to a zero trailing count.
pub open spec fn spec_read_value(bits: Seq<bool>, pos: int, st: CodecState) -> Option<
    (CodecState, int),
> {
    if pos + 1 > bits.len() {
        None
    } else if !bits[pos] {
        Some((st, pos + 1))
    } else if pos + 2 > bits.len() {
        None
    } else if !bits[pos + 1] {
        let mb = 64 - st.prev_leading_zeros - st.prev_trailing_zeros;
        if pos + 2 + mb <= bits.len() {
            let m = word_at(bits, pos + 2, mb as int);
            let xor = m << (st.prev_trailing_zeros as u64);
            Some((CodecState { prev_value_bits: st.prev_value_bits ^ xor, ..st }, pos + 2 + mb))
        } else {
            None
        }
    } else if pos + 14 > bits.len() {
        None
    } else {
        let lead = word_at(bits, pos + 2, 6) as int;
        let mb = word_at(bits, pos + 8, 6) as int + 1;
        let trail: int = if lead + mb <= 64 {
            64 - lead - mb
        } else {
            0
        };
        if pos + 14 + mb <= bits.len() {
            let m = word_at(bits, pos + 14, mb);
            let xor = m << (trail as u64);
            Some(
                (
                    CodecState {
                        prev_value_bits: st.prev_value_bits ^ xor,
                        prev_leading_zeros: lead as u8,
                        prev_trailing_zeros: trail as u8,
                        ..st
                    },
                    pos + 14 + mb,
                ),
            )
        } else {
            None
        }
    }
}

/// The decoder's window invariant: the stored window always has at least
/// one meaningful bit. It starts at (0, 0) and every update keeps it.
pub open spec fn dec_window_wf(st: CodecState) -> bool {
    st.prev_leading_zeros + st.prev_trailing_zeros <= 63
}

/// A parsed delta-of-delta codeword consumes 1 to 68 bits and never runs
/// past the stream.
pub proof fn lemma_read_dod_advances(bits: Seq<bool>, pos: int)
    requires
        0 <= pos <= bits.len(),
    ensures
        match spec_read_dod(bits, pos) {
            None => true,
            Some((d, p2)) => pos + 1 <= p2 <= bits.len() && p2 <= pos + 68,
        },
{
}

/// A parsed value codeword consumes 1 to 78 bits, never runs past the
/// stream, and keeps the decoder's window invariant.
pub proof fn lemma_read_value_advances(bits: Seq<bool>, pos: int, st: CodecState)
    requires
        0 <= pos <= bits.len(),
        dec_window_wf(st),
    ensures
        match spec_read_value(bits, pos, st) {
            None => true,
            Some((st2, p2)) => {
                &&& pos + 1 <= p2 <= bits.len()
                &&& p2 <= pos + 78
                &&& dec_window_wf(st2)
                &&& st2.prev_timestamp == st.prev_timestamp
                &&& st2.prev_delta == st.prev_delta
            },
        },
{
    vstd::arithmetic::power2::lemma2_to64();
    if pos + 1 > bits.len() || !bits[pos] {
    } else if pos + 2 > bits.len() || !bits[pos + 1] {
    } else if pos + 14 > bits.len() {
    } else {
        crate::bits::lemma_int_of_bits_bound(bits.subrange(pos + 2, pos + 8));
        crate::bits::lemma_int_of_bits_bound(bits.subrange(pos + 8, pos + 14));
        assert(word_at(bits, pos + 2, 6) < 64);
        assert(word_at(bits, pos + 8, 6) < 64);
    }
}

/// The state carrying a freshly decoded delta and timestamp.
pub open spec fn dec_advance(st: CodecState, dod: i64) -> CodecState {
    let delta = wadd_i64(st.prev_delta, dod);
    CodecState {
        prev_timestamp: wadd_ts(st.prev_timestamp, delta),
        prev_delta: delta,
        ..st
    }
}

/// The points decoded from `pos` onward, stopping at the sentinel or at the
/// first short read.
pub open spec fn dec_points(bits: Seq<bool>, pos: int, st: CodecState) -> Seq<DataPoint>
    decreases bits.len() - pos,
    when 0 <= pos <= bits.len() && dec_window_wf(st)
    via dec_points_decreases
{
    match spec_read_dod(bits, pos) {
        None => Seq::empty(),
        Some((None, _)) => Seq::empty(),
        Some((Some(dod), pos2)) => {
            let st1 = dec_advance(st, dod);
            match spec_read_value(bits, pos2, st1) {
                None => Seq::empty(),
                Some((st2, pos3)) => seq![
                    DataPoint {
                        timestamp: st2.prev_timestamp,
                        value_bits: st2.prev_value_bits,
                    },
                ] + dec_points(bits, pos3, st2),
            }
        },
    }
}

#[via_fn]
proof fn dec_points_decreases(bits: Seq<bool>, pos: int, st: CodecState) {
    lemma_read_dod_advances(bits, pos);
    if let Some((Some(dod), pos2)) = spec_read_dod(bits, pos) {
        lemma_read_value_advances(bits, pos2, dec_advance(st, dod));
    }
}

/// How decoding from `pos` ends: `None` for a clean sentinel stop, or the
/// error. A short read is always `UnexpectedEnd`.
pub open spec fn dec_err(bits: Seq<bool>, pos: int, st: CodecState) -> Option<DecodeError>
    decreases bits.len() - pos,
    when 0 <= pos <= bits.len() && dec_window_wf(st)
    via dec_err_decreases
{
    match spec_read_dod(bits, pos) {
        None => Some(DecodeError::UnexpectedEnd),
        Some((None, _)) => None,
        Some((Some(dod), pos2)) => {
            let st1 = dec_advance(st, dod);
            match spec_read_value(bits, pos2, st1) {
                None => Some(DecodeError::UnexpectedEnd),
                Some((st2, pos3)) => dec_err(bits, pos3, st2),
            }
        },
    }
}

#[via_fn]
proof fn dec_err_decreases(bits: Seq<bool>, pos: int, st: CodecState) {
    lemma_read_dod_advances(bits, pos);
    if let Some((Some(dod), pos2)) = spec_read_dod(bits, pos) {
        lemma_read_value_advances(bits, pos2, dec_advance(st, dod));
    }
}

/// The decoder state right after reading the 128-bit header.
pub open spec fn init_dec_state(ts: u64, value_bits: u64) -> CodecState {
    CodecState {
        prev_timestamp: ts,
        prev_delta: 0,
        prev_value_bits: value_bits,
        prev_leading_zeros: 0,
        prev_trailing_zeros: 0,
    }
}

/// The first point of a stream long enough to hold the header.
pub open spec fn first_point(bits: Seq<bool>) -> DataPoint
    recommends
        bits.len() >= 128,
{
    DataPoint { timestamp: word_at(bits, 0, 64), value_bits: word_at(bits, 64, 64) }
}

/// What eager decoding returns on a whole bit stream.
pub open spec fn spec_decode(bits: Seq<bool>) -> Result<Seq<DataPoint>, DecodeError> {
    if bits.len() < 64 {
        Err(DecodeError::Empty)
    } else if bits.len() < 128 {
        Err(DecodeError::UnexpectedEnd)
    } else {
        let p0 = first_point(bits);
        let st = init_dec_state(p0.timestamp, p0.value_bits);
        match dec_err(bits, 128, st) {
            None => Ok(seq![p0] + dec_points(bits, 128, st)),
            Some(e) => Err(e),
        }
    }
}

/// The items the lazy decoder yields from `pos` onward: every decoded point
/// wrapped in `Ok`, then the error if decoding did not stop cleanly.
pub open spec fn iter_rest(bits: Seq<bool>, pos: int, st: CodecState) -> Seq<
    Result<DataPoint, DecodeError>,
> {
    dec_points(bits, pos, st).map(|i: int, p: DataPoint| Ok::<DataPoint, DecodeError>(p)) + (
    match dec_err(bits, pos, st) {
        None => Seq::empty(),
        Some(e) => seq![Err::<DataPoint, DecodeError>(e)],
    })
}

/// Every item the lazy decoder yields on a whole bit stream. A stream too
/// short for the first timestamp yields nothing at all.
pub open spec fn iter_items(bits: Seq<bool>) -> Seq<Result<DataPoint, DecodeError>> {
    if bits.len() < 64 {
        Seq::empty()
    } else if bits.len() < 128 {
        seq![Err::<DataPoint, DecodeError>(DecodeError::UnexpectedEnd)]
    } else {
        let p0 = first_point(bits);
        seq![Ok::<DataPoint, DecodeError>(p0)] + iter_rest(
            bits,
            128,
            init_dec_state(p0.timestamp, p0.value_bits),
        )
    }
}

} // verus!
