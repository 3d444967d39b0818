//! The bit-level model shared by the buffer, the reader and the codec:
//! a bit stream is a `Seq<bool>`, bytes hold it big-endian (the first bit
//! of a byte is its most significant bit), and multi-bit fields are the
//! low `n` bits of a word, most significant first.

use vstd::prelude::*;
use vstd::arithmetic::power2::*;
use vstd::arithmetic::div_mod::*;

verus! {

/// Bit `k` of `v`, counting from the least significant bit.
pub open spec fn u64_bit(v: u64, k: u64) -> bool {
    (v >> k) & 1 == 1
}

/// Bit `i` of a byte in stream order: bit 0 is the most significant bit.
pub open spec fn byte_bit(b: u8, i: int) -> bool {
    u64_bit(b as u64, (7 - i) as u64)
}

/// The first `n` bits of a byte sequence, in stream order.
pub open spec fn stream_bits(bytes: Seq<u8>, n: int) -> Seq<bool> {
    Seq::new(n as nat, |i: int| byte_bit(bytes[i / 8], i % 8))
}

/// The low `n` bits of `v`, most significant first.
pub open spec fn bits_of(v: u64, n: int) -> Seq<bool> {
    Seq::new(n as nat, |i: int| u64_bit(v, (n - 1 - i) as u64))
}

/// The unsigned value of a bit string, most significant bit first.
pub open spec fn int_of_bits(s: Seq<bool>) -> int
    decreases s.len(),
{
    if s.len() == 0 {
        0
    } else {
        2 * int_of_bits(s.drop_last()) + (if s.last() {
            1int
        } else {
            0int
        })
    }
}

pub proof fn lemma_int_of_bits_push(s: Seq<bool>, b: bool)
    ensures
        int_of_bits(s.push(b)) == 2 * int_of_bits(s) + (if b {
            1int
        } else {
            0int
        }),
{
    assert(s.push(b).drop_last() =~= s);
}

pub proof fn lemma_int_of_bits_bound(s: Seq<bool>)
    ensures
        0 <= int_of_bits(s) < pow2(s.len()),
    decreases s.len(),
{
    if s.len() == 0 {
        assert(pow2(0) == 1) by {
            lemma2_to64();
        }
    } else {
        lemma_int_of_bits_bound(s.drop_last());
        lemma_pow2_unfold(s.len());
    }
}

/// Reading back the low `n` bits of `v` yields `v` modulo `2^n`.
pub proof fn lemma_int_of_bits_of(v: u64, n: int)
    requires
        0 <= n <= 64,
    ensures
        int_of_bits(bits_of(v, n)) == (v as int) % (pow2(n as nat) as int),
    decreases n,
{
    if n == 0 {
        assert(pow2(0) == 1) by {
            lemma2_to64();
        }
        assert(v as int % 1int == 0) by {
            lemma_mod_self_0(1int);
            lemma_small_mod(0nat, 1nat);
        }
    } else {
        let half = v >> 1u64;
        lemma_int_of_bits_of(half, n - 1);
        assert(bits_of(v, n).drop_last() =~= bits_of(half, n - 1)) by {
            assert forall|i: int| 0 <= i < n - 1 implies bits_of(v, n)[i] == bits_of(
                half,
                n - 1,
            )[i] by {
                let k = (n - 1 - 1 - i) as u64;
                let k1 = (k + 1) as u64;
                assert((half >> k) & 1 == (v >> k1) & 1) by (bit_vector)
                    requires
                        half == v >> 1u64,
                        k < 63,
                        k1 == k + 1,
                ;
            }
        }
        assert(bits_of(v, n).last() == u64_bit(v, 0));
        let b: u64 = v & 1;
        assert(b < 2 && b == v % 2 && half == v / 2 && (((v >> 0u64) & 1 == 1) <==> b == 1))
            by (bit_vector)
            requires
                half == v >> 1u64,
                b == v & 1,
        ;
        lemma_fundamental_div_mod(v as int, 2);
        assert(v as int == 2 * (half as int) + b);
        let p = pow2((n - 1) as nat) as int;
        lemma_pow2_unfold(n as nat);
        lemma_pow2_pos((n - 1) as nat);
        assert(pow2(n as nat) as int == 2 * p);
        // v mod 2p == 2 * (half mod p) + b
        let q = half as int / p;
        let r = half as int % p;
        lemma_fundamental_div_mod(half as int, p);
        assert(v as int == (2 * p) * q + (2 * r + b)) by (nonlinear_arith)
            requires
                v as int == 2 * (half as int) + b,
                half as int == p * q + r,
        ;
        lemma_mod_bound(half as int, p);
        assert(0 <= 2 * r + b < 2 * p);
        lemma_mod_multiples_vanish(q, 2 * r + b, 2 * p);
        assert(((2 * p) * q + (2 * r + b)) % (2 * p) == (2 * r + b) % (2 * p));
        lemma_small_mod((2 * r + b) as nat, (2 * p) as nat);
        assert(v as int % (2 * p) == 2 * r + b);
    }
}

/// The low `n` bits of a value below `2^n` read back as the value itself.
pub proof fn lemma_bits_of_roundtrip(v: u64, n: int)
    requires
        0 <= n <= 64,
        (v as int) < pow2(n as nat),
    ensures
        int_of_bits(bits_of(v, n)) == v as int,
{
    lemma_int_of_bits_of(v, n);
    lemma_small_mod(v as nat, pow2(n as nat));
}

/// What a `u64` becomes when reinterpreted as an `i64`: the same number
/// below `2^63`, and `2^64` less above.
pub proof fn lemma_u64_to_i64(x: u64)
    by (bit_vector)
    ensures
        x < 0x8000_0000_0000_0000 ==> x as i64 == x,
        x >= 0x8000_0000_0000_0000 ==> x as i64 == x - 0x1_0000_0000_0000_0000,
{
}

/// What an `i64` becomes when reinterpreted as a `u64`: the same number if
/// nonnegative, and `2^64` more if negative.
pub proof fn lemma_i64_to_u64(x: i64)
    by (bit_vector)
    ensures
        x >= 0 ==> x as u64 == x,
        x < 0 ==> x as u64 == x + 0x1_0000_0000_0000_0000,
{
}

/// A prefix of a concatenation is a prefix of the first part, or the whole
/// first part and a prefix of the second.
pub proof fn lemma_take_concat(a: Seq<bool>, b: Seq<bool>, k: int)
    requires
        0 <= k <= a.len() + b.len(),
    ensures
        k <= a.len() ==> (a + b).take(k) == a.take(k),
        k >= a.len() ==> (a + b).take(k) == a + b.take(k - a.len()),
{
    if k <= a.len() {
        assert((a + b).take(k) =~= a.take(k));
    }
    if k >= a.len() {
        assert((a + b).take(k) =~= a + b.take(k - a.len()));
    }
}

/// A zero byte has no set bits.
pub proof fn lemma_zero_byte()
    ensures
        forall|i: int| 0 <= i < 8 ==> !(#[trigger] byte_bit(0u8, i)),
{
    assert forall|i: int| 0 <= i < 8 implies !byte_bit(0u8, i) by {
        let j = (7 - i) as u64;
        assert(((0u8 as u64) >> j) & 1 == 0) by (bit_vector);
    }
}

/// Setting stream bit `k` of a byte leaves every other bit unchanged.
pub proof fn lemma_byte_set_bit(b: u8, nb: u8, k: u64)
    requires
        k < 8,
        nb == b | (1u8 << ((7 - k) as u8)),
    ensures
        byte_bit(nb, k as int),
        forall|i: int| 0 <= i < 8 && i != k ==> #[trigger] byte_bit(nb, i) == byte_bit(b, i),
{
    assert forall|i: int| 0 <= i < 8 && i != k implies #[trigger] byte_bit(nb, i) == byte_bit(
        b,
        i,
    ) by {
        let j = (7 - i) as u64;
        assert((((nb as u64) >> j) & 1) == (((b as u64) >> j) & 1)) by (bit_vector)
            requires
                nb == b | (1u8 << ((7 - k) as u8)),
                k < 8,
                j < 8,
                j != 7 - k,
        ;
    }
    assert((((nb as u64) >> ((7 - k) as u64)) & 1) == 1) by (bit_vector)
        requires
            nb == b | (1u8 << ((7 - k) as u8)),
            k < 8,
    ;
}

} // verus!
