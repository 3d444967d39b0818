//! The library's laws: the encoder's bit stream decodes back to exactly the
//! points that were encoded, the lazy decoder yields what the eager decoder
//! returns, and a written bit field reads back as the value written.

use vstd::prelude::*;
use vstd::arithmetic::power2::pow2;
use vstd::arithmetic::power2::lemma2_to64;
use vstd::arithmetic::power2::lemma2_to64_rest;
use vstd::std_specs::bits::u64_leading_zeros;
use vstd::std_specs::bits::u64_trailing_zeros;
use crate::bits::bits_of;
use crate::bits::int_of_bits;
use crate::bits::lemma_bits_of_roundtrip;
use crate::bits::lemma_i64_to_u64;
use crate::decoder::DecodeError;
use crate::encoder::DataPoint;
use crate::wire::dec_advance;
use crate::wire::dec_err;
use crate::wire::dec_points;
use crate::wire::dec_window_wf;
use crate::wire::delta_of;
use crate::wire::dod_codeword;
use crate::wire::dod_of;
use crate::wire::first_point;
use crate::wire::fits_window;
use crate::wire::init_dec_state;
use crate::wire::init_state;
use crate::wire::iter_items;
use crate::wire::lemma_lz_tz;
use crate::wire::mask64;
use crate::wire::sentinel_bits;
use crate::wire::sign_extend_spec;
use crate::wire::spec_decode;
use crate::wire::spec_read_dod;
use crate::wire::spec_read_value;
use crate::wire::step;
use crate::wire::stream_from;
use crate::wire::stream_of;
use crate::wire::value_codeword;
use crate::wire::value_next;
use crate::wire::wadd_i64;
use crate::wire::wadd_ts;
use crate::wire::wsub_i64;
use crate::wire::CodecState;

verus! {

// ── Which point sequences the wire format represents faithfully ─────

/// A delta-of-delta the codeword table represents faithfully. The values
/// 64, 256 and 2048 sit one past the two's-complement range of their
/// bucket's payload width and decode as their negatives; every other value
/// round-trips.
pub open spec fn dod_exact(dod: i64) -> bool {
    dod != 64 && dod != 256 && dod != 2048
}

/// Every delta-of-delta emitted for `points` from state `st` is faithful.
pub open spec fn encodable_from(points: Seq<DataPoint>, st: CodecState) -> bool
    decreases points.len(),
{
    points.len() == 0 || (dod_exact(dod_of(points[0], st)) && encodable_from(
        points.drop_first(),
        step(points[0], st),
    ))
}

/// Every delta-of-delta emitted for `points` is faithful. Holds in
/// particular for any series whose consecutive deltas never jump by exactly
/// +64, +256 or +2048.
pub open spec fn encodable(points: Seq<DataPoint>) -> bool {
    points.len() <= 1 || encodable_from(points.skip(1), init_state(points[0]))
}

// ── Small bit facts ─────────────────────────────────────────────────

proof fn lemma_literal_bits()
    by (bit_vector)
    ensures
        (0u64 >> 0u64) & 1 == 0,
        (0b10u64 >> 1u64) & 1 == 1,
        (0b10u64 >> 0u64) & 1 == 0,
        (0b11u64 >> 1u64) & 1 == 1,
        (0b11u64 >> 0u64) & 1 == 1,
        (0b110u64 >> 2u64) & 1 == 1,
        (0b110u64 >> 1u64) & 1 == 1,
        (0b110u64 >> 0u64) & 1 == 0,
        (0b1110u64 >> 3u64) & 1 == 1,
        (0b1110u64 >> 2u64) & 1 == 1,
        (0b1110u64 >> 1u64) & 1 == 1,
        (0b1110u64 >> 0u64) & 1 == 0,
        (0b1111u64 >> 3u64) & 1 == 1,
        (0b1111u64 >> 2u64) & 1 == 1,
        (0b1111u64 >> 1u64) & 1 == 1,
        (0b1111u64 >> 0u64) & 1 == 1,
{
}

proof fn lemma_dod_payload7(d: i64)
    by (bit_vector)
    requires
        -63 <= d <= 63,
    ensures
        d >= 0 ==> (d as u64) & 0x7f == d,
        d < 0 ==> (d as u64) & 0x7f == d + 128,
{
}

proof fn lemma_dod_payload9(d: i64)
    by (bit_vector)
    requires
        -255 <= d <= 255,
    ensures
        d >= 0 ==> (d as u64) & 0x1ff == d,
        d < 0 ==> (d as u64) & 0x1ff == d + 512,
{
}

proof fn lemma_dod_payload12(d: i64)
    by (bit_vector)
    requires
        -2047 <= d <= 2047,
    ensures
        d >= 0 ==> (d as u64) & 0xfff == d,
        d < 0 ==> (d as u64) & 0xfff == d + 4096,
{
}

// ── Parsing one codeword out of a longer stream ─────────────────────

/// A prefix-plus-payload codeword embedded at `pos` shows its prefix bits
/// at `pos` and its payload right after.
proof fn lemma_embedded_parts(bits: Seq<bool>, pos: int, prefix: u64, k: int, payload: u64, n: int)
    requires
        0 <= pos,
        1 <= k <= 4,
        0 <= n <= 64,
        pos + k + n <= bits.len(),
        bits.subrange(pos, pos + k + n) == bits_of(prefix, k) + bits_of(payload, n),
    ensures
        bits[pos] == ((prefix >> ((k - 1) as u64)) & 1 == 1),
        k >= 2 ==> bits[pos + 1] == ((prefix >> ((k - 2) as u64)) & 1 == 1),
        k >= 3 ==> bits[pos + 2] == ((prefix >> ((k - 3) as u64)) & 1 == 1),
        k >= 4 ==> bits[pos + 3] == ((prefix >> ((k - 4) as u64)) & 1 == 1),
        bits.subrange(pos + k, pos + k + n) == bits_of(payload, n),
{
    let cw = bits_of(prefix, k) + bits_of(payload, n);
    let sub = bits.subrange(pos, pos + k + n);
    assert(sub[0] == bits[pos] && cw[0] == bits_of(prefix, k)[0]);
    if k >= 2 {
        assert(sub[1] == bits[pos + 1] && cw[1] == bits_of(prefix, k)[1]);
    }
    if k >= 3 {
        assert(sub[2] == bits[pos + 2] && cw[2] == bits_of(prefix, k)[2]);
    }
    if k >= 4 {
        assert(sub[3] == bits[pos + 3] && cw[3] == bits_of(prefix, k)[3]);
    }
    assert forall|j: int| 0 <= j < n implies bits.subrange(pos + k, pos + k + n)[j] == bits_of(
        payload,
        n,
    )[j] by {
        assert(sub[k + j] == bits[pos + k + j]);
        assert(cw[k + j] == bits_of(payload, n)[j]);
        assert(bits.subrange(pos + k, pos + k + n)[j] == bits[pos + k + j]);
    }
    assert(bits.subrange(pos + k, pos + k + n) =~= bits_of(payload, n));
}

/// A delta-of-delta codeword for a faithful value, embedded at `pos`,
/// parses back to exactly that value and consumes exactly the codeword.
proof fn lemma_parse_dod(bits: Seq<bool>, pos: int, dod: i64)
    requires
        dod_exact(dod),
        0 <= pos,
        pos + dod_codeword(dod).len() <= bits.len(),
        bits.subrange(pos, pos + dod_codeword(dod).len()) == dod_codeword(dod),
    ensures
        spec_read_dod(bits, pos) == Some((Some(dod), pos + dod_codeword(dod).len())),
{
    lemma_literal_bits();
    lemma2_to64();
    lemma2_to64_rest();
    let cw = dod_codeword(dod);
    if dod == 0 {
        let sub = bits.subrange(pos, pos + 1);
        assert(sub[0] == bits[pos] && sub[0] == bits_of(0u64, 1)[0]);
        assert(!bits[pos]);
    } else if -63 <= dod && dod <= 64 {
        let payload = (dod as u64) & 0x7f;
        lemma_dod_payload7(dod);
        lemma_embedded_parts(bits, pos, 0b10u64, 2, payload, 7);
        assert(bits[pos] && !bits[pos + 1]);
        lemma_bits_of_roundtrip(payload, 7);
        assert(sign_extend_spec(payload, 7) == dod);
    } else if -255 <= dod && dod <= 256 {
        let payload = (dod as u64) & 0x1ff;
        lemma_dod_payload9(dod);
        lemma_embedded_parts(bits, pos, 0b110u64, 3, payload, 9);
        assert(bits[pos] && bits[pos + 1] && !bits[pos + 2]);
        lemma_bits_of_roundtrip(payload, 9);
        assert(sign_extend_spec(payload, 9) == dod);
    } else if -2047 <= dod && dod <= 2048 {
        let payload = (dod as u64) & 0xfff;
        lemma_dod_payload12(dod);
        lemma_embedded_parts(bits, pos, 0b1110u64, 4, payload, 12);
        assert(bits[pos] && bits[pos + 1] && bits[pos + 2] && !bits[pos + 3]);
        lemma_bits_of_roundtrip(payload, 12);
        assert(sign_extend_spec(payload, 12) == dod);
    } else {
        let payload = dod as u64;
        lemma_embedded_parts(bits, pos, 0b1111u64, 4, payload, 64);
        assert(bits[pos] && bits[pos + 1] && bits[pos + 2] && bits[pos + 3]);
        lemma_bits_of_roundtrip(payload, 64);
        lemma_i64_to_u64(dod);
        assert(payload != 0xFFFF_FFFF_FFFF_FFFFu64);
        assert(sign_extend_spec(payload, 64) == dod);
    }
}

/// A concatenation embedded at `pos` splits into its two parts.
proof fn lemma_subrange_concat(bits: Seq<bool>, pos: int, a: Seq<bool>, b: Seq<bool>)
    requires
        0 <= pos,
        pos + a.len() + b.len() <= bits.len(),
        bits.subrange(pos, pos + a.len() + b.len()) == a + b,
    ensures
        bits.subrange(pos, pos + a.len()) == a,
        bits.subrange(pos + a.len(), pos + a.len() + b.len()) == b,
{
    let whole = bits.subrange(pos, pos + a.len() + b.len());
    assert forall|i: int| 0 <= i < a.len() implies bits.subrange(pos, pos + a.len())[i]
        == a[i] by {
        assert(whole[i] == bits[pos + i]);
        assert(bits.subrange(pos, pos + a.len())[i] == bits[pos + i]);
    }
    assert(bits.subrange(pos, pos + a.len()) =~= a);
    assert forall|i: int| 0 <= i < b.len() implies bits.subrange(
        pos + a.len(),
        pos + a.len() + b.len(),
    )[i] == b[i] by {
        assert(whole[a.len() + i] == bits[pos + a.len() + i]);
        assert(bits.subrange(pos + a.len(), pos + a.len() + b.len())[i] == bits[pos + a.len()
            + i]);
    }
    assert(bits.subrange(pos + a.len(), pos + a.len() + b.len()) =~= b);
}

// ── Window correspondence between encoder and decoder ───────────────

/// The encoder's window state and the decoder's correspond: either neither
/// has seen a window yet (the encoder marks that with 64/64, the decoder
/// starts at 0/0), or both hold the same valid window.
pub open spec fn windows_agree(e: CodecState, d: CodecState) -> bool {
    ||| (e.prev_leading_zeros == 64 && e.prev_trailing_zeros == 64 && d.prev_leading_zeros == 0
        && d.prev_trailing_zeros == 0)
    ||| (e.prev_leading_zeros == d.prev_leading_zeros && e.prev_trailing_zeros
        == d.prev_trailing_zeros && e.prev_leading_zeros + e.prev_trailing_zeros <= 63)
}

proof fn lemma_mask_extract(x: u64, sz: u64, w: u64, l: u64, t: u64, k: u64)
    by (bit_vector)
    requires
        x >> sz == 0,
        sz + l <= 64,
        x << w == 0,
        w + t <= 64,
        l + t <= 63,
        k == 64 - l - t,
    ensures
        (x >> t) & mask64(k) == x >> t,
        ((x >> t) << t) == x,
        k < 64 ==> (x >> t) < (1u64 << k),
{
}

proof fn lemma_xor_cancel(a: u64, b: u64)
    by (bit_vector)
    ensures
        a ^ (b ^ a) == b,
        (b ^ a == 0) ==> b == a,
{
}

/// A value codeword embedded at `pos`, parsed against a decoder state whose
/// window corresponds to the encoder's and whose last value agrees, yields
/// exactly the encoded value bits, consumes exactly the codeword, and keeps
/// the windows in correspondence.
proof fn lemma_parse_value(bits: Seq<bool>, pos: int, vb: u64, e: CodecState, d: CodecState)
    requires
        0 <= pos,
        pos + value_codeword(vb, e).len() <= bits.len(),
        bits.subrange(pos, pos + value_codeword(vb, e).len()) == value_codeword(vb, e),
        windows_agree(e, d),
        e.prev_value_bits == d.prev_value_bits,
    ensures
        ({
            let r = spec_read_value(bits, pos, d);
            &&& r is Some
            &&& r->Some_0.1 == pos + value_codeword(vb, e).len()
            &&& r->Some_0.0.prev_value_bits == vb
            &&& r->Some_0.0.prev_timestamp == d.prev_timestamp
            &&& r->Some_0.0.prev_delta == d.prev_delta
            &&& windows_agree(value_next(vb, e), r->Some_0.0)
        }),
{
    lemma_literal_bits();
    lemma2_to64();
    lemma2_to64_rest();
    let cw = value_codeword(vb, e);
    let xor = vb ^ e.prev_value_bits;
    if xor == 0 {
        let sub = bits.subrange(pos, pos + 1);
        assert(sub[0] == bits[pos] && sub[0] == bits_of(0u64, 1)[0]);
        assert(!bits[pos]);
        lemma_xor_cancel(e.prev_value_bits, vb);
        assert(d.prev_value_bits == vb);
    } else {
        lemma_lz_tz(xor);
        vstd::std_specs::bits::axiom_u64_leading_zeros(xor);
        vstd::std_specs::bits::axiom_u64_trailing_zeros(xor);
        let lz = u64_leading_zeros(xor);
        let tz = u64_trailing_zeros(xor) as int;
        if fits_window(xor, e) {
            // The encoder's window is genuine here: a nonzero value has at
            // most 63 leading zeros.
            assert(e.prev_leading_zeros == d.prev_leading_zeros && e.prev_trailing_zeros
                == d.prev_trailing_zeros);
            let el = e.prev_leading_zeros as u64;
            let et = e.prev_trailing_zeros as u64;
            let mb = 64 - e.prev_leading_zeros - e.prev_trailing_zeros;
            let mv = (xor >> et) & mask64(mb as u64);
            lemma_embedded_parts(bits, pos, 0b10u64, 2, mv, mb as int);
            assert(bits[pos] && !bits[pos + 1]);
            lemma_mask_extract(
                xor,
                (64 - lz) as u64,
                (64 - tz) as u64,
                el,
                et,
                mb as u64,
            );
            assert(mv == xor >> et);
            if mb < 64 {
                vstd::bits::lemma_u64_shl_is_mul(1u64, mb as u64);
                vstd::arithmetic::power2::lemma_pow2_strictly_increases(mb as nat, 64);
            }
            lemma_bits_of_roundtrip(mv, mb as int);
            lemma_xor_cancel(d.prev_value_bits, vb);
            assert((mv << et) == xor);
            assert(d.prev_value_bits ^ xor == vb);
        } else {
            let mb = 64 - lz - tz;
            let mv = (xor >> (tz as u64)) & mask64(mb as u64);
            let a1 = bits_of(0b11u64, 2);
            let a2 = bits_of(lz as u64, 6);
            let a3 = bits_of((mb - 1) as u64, 6);
            let a4 = bits_of(mv, mb);
            assert(cw == ((a1 + a2) + a3) + a4);
            lemma_subrange_concat(bits, pos, (a1 + a2) + a3, a4);
            lemma_subrange_concat(bits, pos, a1 + a2, a3);
            lemma_subrange_concat(bits, pos, a1, a2);
            lemma_embedded_parts(bits, pos, 0b11u64, 2, lz as u64, 6);
            assert(bits[pos] && bits[pos + 1]);
            lemma_bits_of_roundtrip(lz as u64, 6);
            lemma_bits_of_roundtrip((mb - 1) as u64, 6);
            lemma_mask_extract(
                xor,
                (64 - lz) as u64,
                (64 - tz) as u64,
                lz as u64,
                tz as u64,
                mb as u64,
            );
            if mb < 64 {
                vstd::bits::lemma_u64_shl_is_mul(1u64, mb as u64);
                vstd::arithmetic::power2::lemma_pow2_strictly_increases(mb as nat, 64);
            }
            lemma_bits_of_roundtrip(mv, mb);
            lemma_xor_cancel(d.prev_value_bits, vb);
            assert(mv == xor >> (tz as u64));
            assert((mv << (tz as u64)) == xor);
            assert(d.prev_value_bits ^ xor == vb);
        }
    }
}

// ── Wrapping arithmetic inverts exactly ─────────────────────────────

proof fn lemma_delta_inverse(pd: i64, delta: i64)
    ensures
        wadd_i64(pd, wsub_i64(delta, pd)) == delta,
{
}

proof fn lemma_ts_inverse(ts0: u64, ts1: u64)
    ensures
        wadd_ts(ts0, vstd::wrapping::u64_specs::wrapping_sub(ts1, ts0) as i64) == ts1,
{
    crate::bits::lemma_u64_to_i64(vstd::wrapping::u64_specs::wrapping_sub(ts1, ts0));
}

/// The end-of-stream marker embedded at `pos` parses as the sentinel.
proof fn lemma_parse_sentinel(bits: Seq<bool>, pos: int)
    requires
        0 <= pos,
        pos + 68 <= bits.len(),
        bits.subrange(pos, pos + 68) == sentinel_bits(),
    ensures
        spec_read_dod(bits, pos) == Some((None::<i64>, pos + 68)),
{
    lemma_literal_bits();
    lemma2_to64_rest();
    lemma_embedded_parts(bits, pos, 0b1111u64, 4, 0xFFFF_FFFF_FFFF_FFFFu64, 64);
    assert(bits[pos] && bits[pos + 1] && bits[pos + 2] && bits[pos + 3]);
    lemma_bits_of_roundtrip(0xFFFF_FFFF_FFFF_FFFFu64, 64);
}

// ── The round trip ──────────────────────────────────────────────────

/// Decoding a terminated stream inverts encoding, codeword by codeword,
/// whenever the encoder and decoder states correspond.
proof fn lemma_decode_stream_from(
    bits: Seq<bool>,
    pos: int,
    points: Seq<DataPoint>,
    e: CodecState,
    d: CodecState,
)
    requires
        0 <= pos <= bits.len(),
        bits.subrange(pos, bits.len() as int) == stream_from(points, e) + sentinel_bits(),
        encodable_from(points, e),
        windows_agree(e, d),
        dec_window_wf(d),
        e.prev_value_bits == d.prev_value_bits,
        e.prev_timestamp == d.prev_timestamp,
        e.prev_delta == d.prev_delta,
    ensures
        dec_err(bits, pos, d) is None,
        dec_points(bits, pos, d) == points,
    decreases points.len(),
{
    if points.len() == 0 {
        assert(stream_from(points, e) + sentinel_bits() =~= sentinel_bits());
        assert(bits.len() - pos == 68);
        assert(bits.subrange(pos, pos + 68) == sentinel_bits());
        lemma_parse_sentinel(bits, pos);
        assert(dec_points(bits, pos, d) =~= Seq::<DataPoint>::empty());
    } else {
        let p = points[0];
        let dodv = dod_of(p, e);
        let dcw = dod_codeword(dodv);
        let vcw = value_codeword(p.value_bits, e);
        let rest = stream_from(points.drop_first(), step(p, e));
        let pos2 = pos + dcw.len();
        let pos3 = pos2 + vcw.len();
        let tail = vcw + (rest + sentinel_bits());
        assert(stream_from(points, e) + sentinel_bits() =~= dcw + tail);
        assert(bits.len() - pos == dcw.len() + tail.len());
        lemma_subrange_concat(bits, pos, dcw, tail);
        lemma_parse_dod(bits, pos, dodv);
        assert(spec_read_dod(bits, pos) == Some((Some(dodv), pos2)));

        let d1 = dec_advance(d, dodv);
        lemma_delta_inverse(e.prev_delta, delta_of(p, e));
        lemma_ts_inverse(e.prev_timestamp, p.timestamp);
        assert(d1.prev_delta == delta_of(p, e));
        assert(d1.prev_timestamp == p.timestamp);

        assert(bits.subrange(pos2, bits.len() as int) =~= vcw + (rest + sentinel_bits()));
        lemma_subrange_concat(bits, pos2, vcw, rest + sentinel_bits());
        lemma_parse_value(bits, pos2, p.value_bits, e, d1);
        let d2 = spec_read_value(bits, pos2, d1)->Some_0.0;
        assert(spec_read_value(bits, pos2, d1)->Some_0.1 == pos3);

        let e2 = step(p, e);
        assert(windows_agree(e2, d2));
        assert(dec_window_wf(d2));
        assert(e2.prev_value_bits == d2.prev_value_bits);
        assert(e2.prev_timestamp == d2.prev_timestamp);
        assert(e2.prev_delta == d2.prev_delta);
        lemma_decode_stream_from(bits, pos3, points.drop_first(), e2, d2);
        assert(dec_points(bits, pos, d) == seq![
            DataPoint { timestamp: d2.prev_timestamp, value_bits: d2.prev_value_bits },
        ] + dec_points(bits, pos3, d2));
        assert(DataPoint { timestamp: d2.prev_timestamp, value_bits: d2.prev_value_bits } == p);
        assert(seq![p] + points.drop_first() =~= points);
    }
}

/// Round trip: encoding any nonempty sequence of points whose
/// delta-of-deltas the codeword table represents faithfully, then
/// terminating the stream, decodes back to exactly the same points —
/// timestamps equal as integers, values equal bit for bit.
pub proof fn lemma_encode_decode_roundtrip(points: Seq<DataPoint>)
    requires
        points.len() >= 1,
        encodable(points),
    ensures
        spec_decode(stream_of(points) + sentinel_bits()) == Ok::<Seq<DataPoint>, DecodeError>(
            points,
        ),
{
    lemma2_to64_rest();
    let p0 = points[0];
    let e0 = init_state(p0);
    let rest = stream_from(points.drop_first(), e0);
    let bits = stream_of(points) + sentinel_bits();
    let h1 = bits_of(p0.timestamp, 64);
    let h2 = bits_of(p0.value_bits, 64);
    assert(bits =~= h1 + (h2 + (rest + sentinel_bits())));
    assert(bits.subrange(0, bits.len() as int) =~= bits);
    lemma_subrange_concat(bits, 0, h1, h2 + (rest + sentinel_bits()));
    lemma_subrange_concat(bits, 64, h2, rest + sentinel_bits());
    lemma_bits_of_roundtrip(p0.timestamp, 64);
    lemma_bits_of_roundtrip(p0.value_bits, 64);
    assert(first_point(bits) == p0);
    let d0 = init_dec_state(p0.timestamp, p0.value_bits);
    assert(points.drop_first() =~= points.skip(1));
    lemma_decode_stream_from(bits, 128, points.drop_first(), e0, d0);
    assert(seq![p0] + points.drop_first() =~= points);
}

// ── The lazy decoder matches the eager one ──────────────────────────

/// The points the eager decoder produced before stopping (all of them on
/// success, the prefix before the error otherwise).
pub open spec fn decoded_prefix(bits: Seq<bool>) -> Seq<DataPoint> {
    if bits.len() < 128 {
        Seq::empty()
    } else {
        let p0 = first_point(bits);
        seq![p0] + dec_points(bits, 128, init_dec_state(p0.timestamp, p0.value_bits))
    }
}

/// Decoding past the header can only fail with `UnexpectedEnd`.
proof fn lemma_dec_err_not_empty(bits: Seq<bool>, pos: int, st: CodecState)
    requires
        0 <= pos <= bits.len(),
        dec_window_wf(st),
    ensures
        dec_err(bits, pos, st) != Some(DecodeError::Empty),
    decreases bits.len() - pos,
{
    crate::wire::lemma_read_dod_advances(bits, pos);
    if let Some((Some(dod), pos2)) = spec_read_dod(bits, pos) {
        let st1 = dec_advance(st, dod);
        crate::wire::lemma_read_value_advances(bits, pos2, st1);
        if let Some((st2, pos3)) = spec_read_value(bits, pos2, st1) {
            lemma_dec_err_not_empty(bits, pos3, st2);
        }
    }
}

/// Every point wrapped as a successful item.
pub open spec fn ok_items(pts: Seq<DataPoint>) -> Seq<Result<DataPoint, DecodeError>> {
    pts.map(|i: int, p: DataPoint| Ok::<DataPoint, DecodeError>(p))
}

/// Collecting the lazy decoder equals eager decoding: on success the items
/// are exactly the decoded points, each wrapped in `Ok`; on failure they
/// are the points decoded before the error, then the error itself — except
/// that a stream too short for the first timestamp yields no items where
/// the eager decoder reports `Empty`.
pub proof fn lemma_iter_matches_decode(bits: Seq<bool>)
    ensures
        match spec_decode(bits) {
            Ok(pts) => iter_items(bits) == ok_items(pts),
            Err(e) => iter_items(bits) == (if e == DecodeError::Empty {
                Seq::<Result<DataPoint, DecodeError>>::empty()
            } else {
                ok_items(decoded_prefix(bits)).push(Err(e))
            }),
        },
{
    if bits.len() < 64 {
    } else if bits.len() < 128 {
        assert(iter_items(bits) =~= ok_items(decoded_prefix(bits)).push(
            Err(DecodeError::UnexpectedEnd),
        ));
    } else {
        let p0 = first_point(bits);
        let st = init_dec_state(p0.timestamp, p0.value_bits);
        let pts = dec_points(bits, 128, st);
        match dec_err(bits, 128, st) {
            None => {
                assert(iter_items(bits) =~= ok_items(seq![p0] + pts));
            },
            Some(e) => {
                lemma_dec_err_not_empty(bits, 128, st);
                assert(iter_items(bits) =~= ok_items(decoded_prefix(bits)).push(Err(e)));
            },
        }
    }
}

// ── Written bits read back ──────────────────────────────────────────

/// After `write_bits(v, n)` succeeds on a buffer holding `c`, reading `n`
/// bits at position `c.len()` of the result returns `v`; with `c` empty
/// that is `read_bits(n)` from position 0 of a fresh reader over the
/// buffer.
pub proof fn lemma_write_read_roundtrip(c: Seq<bool>, v: u64, n: int)
    requires
        0 <= n <= 64,
        (v as int) < pow2(n as nat),
    ensures
        int_of_bits((c + bits_of(v, n)).subrange(c.len() as int, c.len() + n)) == v,
{
    assert((c + bits_of(v, n)).subrange(c.len() as int, c.len() + n) =~= bits_of(v, n));
    lemma_bits_of_roundtrip(v, n);
}

} // verus!
