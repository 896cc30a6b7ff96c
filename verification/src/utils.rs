//! Bit/byte codec: pure conversions between byte sequences and bit sequences
//! (big-endian, most-significant bit first within each byte), and between a
//! 32-bit unsigned integer and its 4-byte big-endian representation.
use vstd::prelude::*;

verus! {

use vstd::arithmetic::div_mod::lemma_fundamental_div_mod;
use vstd::arithmetic::div_mod::lemma_fundamental_div_mod_converse;
use vstd::arithmetic::power2::lemma2_to64;
use vstd::arithmetic::power2::lemma_pow2_strictly_increases;
use vstd::arithmetic::power2::pow2;

/// The bit at index `i` (0 = most significant) of byte `b`.
pub open spec fn byte_bit(b: u8, i: int) -> bool {
    (b >> ((7 - i) as u8)) & 1 == 1
}

/// The bit sequence of a byte sequence, most-significant bit of each byte
/// first; the length is 8 times the input length.
pub open spec fn bits_of_bytes(bytes: Seq<u8>) -> Seq<bool> {
    Seq::new(bytes.len() * 8, |i: int| byte_bit(bytes[i / 8], i % 8))
}

/// The bit at index `i`, or `false` past either end (zero padding).
pub open spec fn bit_or_zero(bits: Seq<bool>, i: int) -> bool {
    0 <= i < bits.len() && bits[i]
}

/// `bit_or_zero` as 0 or 1.
pub open spec fn bit_value(bits: Seq<bool>, i: int) -> nat {
    if bit_or_zero(bits, i) {
        1
    } else {
        0
    }
}

/// The big-endian value of the `k` bits starting at `base`, bits past the end
/// of the sequence reading as zero.
pub open spec fn chunk_value(bits: Seq<bool>, base: int, k: nat) -> nat
    decreases k,
{
    if k == 0 {
        0
    } else {
        2 * chunk_value(bits, base, (k - 1) as nat) + bit_value(bits, base + k - 1)
    }
}

/// The byte packed from bits `[8j, 8j + 8)`, most-significant bit first,
/// zero-padded on the low-order side past the end of the sequence.
pub open spec fn packed_byte(bits: Seq<bool>, j: int) -> u8 {
    chunk_value(bits, 8 * j, 8) as u8
}

/// The byte sequence packed from a bit sequence, 8 bits per byte, the final
/// partial chunk zero-padded on the low-order side.
pub open spec fn bits_to_bytes_spec(bits: Seq<bool>) -> Seq<u8> {
    Seq::new((bits.len() + 7) / 8, |j: int| packed_byte(bits, j))
}

/// The 4-byte big-endian representation of a 32-bit unsigned integer.
pub open spec fn u32_bytes(number: u32) -> Seq<u8> {
    seq![(number >> 24) as u8, (number >> 16) as u8, (number >> 8) as u8, number as u8]
}

/// The 32-bit unsigned integer read from 4 big-endian bytes.
pub open spec fn u32_of_bytes(bytes: Seq<u8>) -> u32
    recommends
        bytes.len() == 4,
{
    ((bytes[0] as u32) << 24) | ((bytes[1] as u32) << 16) | ((bytes[2] as u32) << 8) | (
    bytes[3] as u32)
}

/// Division and remainder of `8 * q + r` by 8, for `0 <= r < 8`.
pub proof fn lemma_mul8_div_mod(q: int, r: int)
    requires
        0 <= r < 8,
    ensures
        (8 * q + r) / 8 == q,
        (8 * q + r) % 8 == r,
{
    lemma_fundamental_div_mod_converse(8 * q + r, 8, q, r);
}

/// The value of a bit chunk is bounded by the corresponding power of two.
pub proof fn lemma_chunk_value_bound(bits: Seq<bool>, base: int, k: nat)
    ensures
        chunk_value(bits, base, k) < pow2(k),
    decreases k,
{
    if k == 0 {
        lemma2_to64();
    } else {
        lemma_chunk_value_bound(bits, base, (k - 1) as nat);
        assert(pow2(k) == 2 * pow2((k - 1) as nat)) by {
            vstd::arithmetic::power2::lemma_pow2_unfold(k);
        }
    }
}

/// The closed form of an 8-bit chunk value.
pub proof fn lemma_chunk_value_closed(bits: Seq<bool>, base: int)
    ensures
        chunk_value(bits, base, 8) == 128 * bit_value(bits, base) + 64 * bit_value(bits, base + 1)
            + 32 * bit_value(bits, base + 2) + 16 * bit_value(bits, base + 3) + 8 * bit_value(
            bits,
            base + 4,
        ) + 4 * bit_value(bits, base + 5) + 2 * bit_value(bits, base + 6) + bit_value(
            bits,
            base + 7,
        ),
{
    assert(chunk_value(bits, base, 0) == 0);
    assert(chunk_value(bits, base, 1) == bit_value(bits, base));
    assert(chunk_value(bits, base, 2) == 2 * bit_value(bits, base) + bit_value(bits, base + 1));
    assert(chunk_value(bits, base, 3) == 4 * bit_value(bits, base) + 2 * bit_value(bits, base + 1)
        + bit_value(bits, base + 2));
    assert(chunk_value(bits, base, 4) == 8 * bit_value(bits, base) + 4 * bit_value(bits, base + 1)
        + 2 * bit_value(bits, base + 2) + bit_value(bits, base + 3));
    assert(chunk_value(bits, base, 5) == 16 * bit_value(bits, base) + 8 * bit_value(bits, base + 1)
        + 4 * bit_value(bits, base + 2) + 2 * bit_value(bits, base + 3) + bit_value(
        bits,
        base + 4,
    ));
    assert(chunk_value(bits, base, 6) == 32 * bit_value(bits, base) + 16 * bit_value(
        bits,
        base + 1,
    ) + 8 * bit_value(bits, base + 2) + 4 * bit_value(bits, base + 3) + 2 * bit_value(
        bits,
        base + 4,
    ) + bit_value(bits, base + 5));
    assert(chunk_value(bits, base, 7) == 64 * bit_value(bits, base) + 32 * bit_value(
        bits,
        base + 1,
    ) + 16 * bit_value(bits, base + 2) + 8 * bit_value(bits, base + 3) + 4 * bit_value(
        bits,
        base + 4,
    ) + 2 * bit_value(bits, base + 5) + bit_value(bits, base + 6));
}

/// Unpacking a packed byte recovers each packed bit.
pub proof fn lemma_packed_byte_bit(bits: Seq<bool>, j: int, k: int)
    requires
        0 <= k < 8,
    ensures
        byte_bit(packed_byte(bits, j), k) == bit_or_zero(bits, 8 * j + k),
{
    let base = 8 * j;
    lemma_chunk_value_closed(bits, base);
    lemma_chunk_value_bound(bits, base, 8);
    lemma2_to64();
    let c0: u8 = bit_value(bits, base) as u8;
    let c1: u8 = bit_value(bits, base + 1) as u8;
    let c2: u8 = bit_value(bits, base + 2) as u8;
    let c3: u8 = bit_value(bits, base + 3) as u8;
    let c4: u8 = bit_value(bits, base + 4) as u8;
    let c5: u8 = bit_value(bits, base + 5) as u8;
    let c6: u8 = bit_value(bits, base + 6) as u8;
    let c7: u8 = bit_value(bits, base + 7) as u8;
    let b: u8 = packed_byte(bits, j);
    assert(b == 128 * c0 + 64 * c1 + 32 * c2 + 16 * c3 + 8 * c4 + 4 * c5 + 2 * c6 + c7);
    let kk: u8 = k as u8;
    assert((((b >> ((7 - kk) as u8)) & 1) == 1) == ((if kk == 0 {
        c0
    } else if kk == 1 {
        c1
    } else if kk == 2 {
        c2
    } else if kk == 3 {
        c3
    } else if kk == 4 {
        c4
    } else if kk == 5 {
        c5
    } else if kk == 6 {
        c6
    } else {
        c7
    }) == 1)) by (bit_vector)
        requires
            b == 128 * c0 + 64 * c1 + 32 * c2 + 16 * c3 + 8 * c4 + 4 * c5 + 2 * c6 + c7,
            c0 <= 1,
            c1 <= 1,
            c2 <= 1,
            c3 <= 1,
            c4 <= 1,
            c5 <= 1,
            c6 <= 1,
            c7 <= 1,
            kk < 8,
    ;
}

/// Packing the bits of a byte sequence recovers each byte.
pub proof fn lemma_packed_byte_of_bits(bytes: Seq<u8>, j: int)
    requires
        0 <= j < bytes.len(),
    ensures
        packed_byte(bits_of_bytes(bytes), j) == bytes[j],
{
    let bits = bits_of_bytes(bytes);
    let base = 8 * j;
    lemma_chunk_value_closed(bits, base);
    lemma_chunk_value_bound(bits, base, 8);
    lemma2_to64();
    assert forall|k: int| 0 <= k < 8 implies bit_or_zero(bits, base + k) == byte_bit(
        bytes[j],
        k,
    ) by {
        lemma_mul8_div_mod(j, k);
        assert(base + k < bytes.len() * 8);
        assert(bits[base + k] == byte_bit(bytes[(base + k) / 8], (base + k) % 8));
    }
    let b: u8 = bytes[j];
    let c0: u8 = bit_value(bits, base) as u8;
    let c1: u8 = bit_value(bits, base + 1) as u8;
    let c2: u8 = bit_value(bits, base + 2) as u8;
    let c3: u8 = bit_value(bits, base + 3) as u8;
    let c4: u8 = bit_value(bits, base + 4) as u8;
    let c5: u8 = bit_value(bits, base + 5) as u8;
    let c6: u8 = bit_value(bits, base + 6) as u8;
    let c7: u8 = bit_value(bits, base + 7) as u8;
    assert(128 * c0 + 64 * c1 + 32 * c2 + 16 * c3 + 8 * c4 + 4 * c5 + 2 * c6 + c7 == b)
        by (bit_vector)
        requires
            c0 == (if (b >> 7) & 1 == 1 {
                1u8
            } else {
                0u8
            }),
            c1 == (if (b >> 6) & 1 == 1 {
                1u8
            } else {
                0u8
            }),
            c2 == (if (b >> 5) & 1 == 1 {
                1u8
            } else {
                0u8
            }),
            c3 == (if (b >> 4) & 1 == 1 {
                1u8
            } else {
                0u8
            }),
            c4 == (if (b >> 3) & 1 == 1 {
                1u8
            } else {
                0u8
            }),
            c5 == (if (b >> 2) & 1 == 1 {
                1u8
            } else {
                0u8
            }),
            c6 == (if (b >> 1) & 1 == 1 {
                1u8
            } else {
                0u8
            }),
            c7 == (if (b >> 0) & 1 == 1 {
                1u8
            } else {
                0u8
            }),
    ;
}

/// A zero byte has no set bits.
pub proof fn lemma_zero_byte_bits(k: int)
    requires
        0 <= k < 8,
    ensures
        !byte_bit(0u8, k),
{
    let sh: u8 = (7 - k) as u8;
    assert((0u8 >> sh) & 1 == 0) by (bit_vector);
}

/// Round-trip law: packing the bit expansion of any byte sequence gives back
/// exactly that byte sequence.
pub proof fn lemma_bytes_bits_round_trip(bytes: Seq<u8>)
    ensures
        bits_to_bytes_spec(bits_of_bytes(bytes)) == bytes,
{
    let packed = bits_to_bytes_spec(bits_of_bytes(bytes));
    lemma_mul8_div_mod(bytes.len() as int, 7);
    assert(packed.len() == bytes.len());
    assert forall|j: int| 0 <= j < bytes.len() implies packed[j] == bytes[j] by {
        lemma_packed_byte_of_bits(bytes, j);
    }
    assert(packed =~= bytes);
}

/// Round-trip law: unpacking the packed bytes of any bit sequence gives back
/// that bit sequence as a prefix; the remainder is low-order zero padding.
pub proof fn lemma_bits_bytes_round_trip_prefix(bits: Seq<bool>)
    ensures
        bits_of_bytes(bits_to_bytes_spec(bits)).len() == 8 * ((bits.len() + 7) / 8),
        bits_of_bytes(bits_to_bytes_spec(bits)).take(bits.len() as int) == bits,
        forall|i: int|
            bits.len() <= i < 8 * ((bits.len() + 7) / 8) ==> !bits_of_bytes(
                bits_to_bytes_spec(bits),
            )[i],
{
    let bytes = bits_to_bytes_spec(bits);
    let unpacked = bits_of_bytes(bytes);
    assert(bits.len() <= 8 * ((bits.len() + 7) / 8)) by {
        lemma_fundamental_div_mod(bits.len() as int + 7, 8);
    }
    assert forall|i: int| 0 <= i < unpacked.len() implies unpacked[i] == bit_or_zero(bits, i) by {
        let j = i / 8;
        let k = i % 8;
        lemma_fundamental_div_mod(i, 8);
        assert(unpacked[i] == byte_bit(bytes[j], k));
        lemma_packed_byte_bit(bits, j, k);
        assert(8 * j + k == i);
    }
    assert(unpacked.take(bits.len() as int) =~= bits);
}

/// Round-trip law for bit sequences whose length is a whole number of bytes.
pub proof fn lemma_bits_bytes_round_trip_exact(bits: Seq<bool>)
    requires
        bits.len() % 8 == 0,
    ensures
        bits_of_bytes(bits_to_bytes_spec(bits)) == bits,
{
    lemma_bits_bytes_round_trip_prefix(bits);
    let unpacked = bits_of_bytes(bits_to_bytes_spec(bits));
    assert(8 * ((bits.len() + 7) / 8) == bits.len()) by {
        lemma_fundamental_div_mod(bits.len() as int, 8);
        lemma_mul8_div_mod((bits.len() as int) / 8, 7);
    }
    assert(unpacked =~= bits);
}

/// Round-trip law: the 4 big-endian bytes of a `u32` read back as that `u32`.
pub proof fn lemma_u32_round_trip(number: u32)
    ensures
        u32_of_bytes(u32_bytes(number)) == number,
{
    let n = number;
    assert(((((n >> 24) as u8) as u32) << 24) | ((((n >> 16) as u8) as u32) << 16) | ((((n
        >> 8) as u8) as u32) << 8) | ((n as u8) as u32) == n) by (bit_vector);
}

/// Round-trip law: any 4 bytes are recovered from the `u32` they encode.
pub proof fn lemma_bytes_u32_round_trip(bytes: Seq<u8>)
    requires
        bytes.len() == 4,
    ensures
        u32_bytes(u32_of_bytes(bytes)) == bytes,
{
    let b0 = bytes[0];
    let b1 = bytes[1];
    let b2 = bytes[2];
    let b3 = bytes[3];
    let n = u32_of_bytes(bytes);
    assert((n >> 24) as u8 == b0 && (n >> 16) as u8 == b1 && (n >> 8) as u8 == b2 && n as u8 == b3)
        by (bit_vector)
        requires
            n == ((b0 as u32) << 24) | ((b1 as u32) << 16) | ((b2 as u32) << 8) | (b3 as u32),
    ;
    assert(u32_bytes(n) =~= bytes);
}

/// Expands each byte, most-significant bit first, preserving order; the result
/// has 8 bits for each input byte.
pub fn bytes_to_bits(bytes: &[u8]) -> (bits: Vec<bool>)
    ensures
        bits@ == bits_of_bytes(bytes@),
{
    let mut bits: Vec<bool> = Vec::new();
    let n: usize = bytes.len();
    let mut idx: usize = 0;
    while idx < n
        invariant
            n == bytes@.len(),
            idx <= n,
            bits@ == bits_of_bytes(bytes@).take(8 * idx as int),
        decreases n - idx,
    {
        let b: u8 = bytes[idx];
        let mut k: usize = 0;
        while k < 8
            invariant
                n == bytes@.len(),
                idx < n,
                b == bytes@[idx as int],
                k <= 8,
                bits@ == bits_of_bytes(bytes@).take(8 * idx as int + k as int),
            decreases 8 - k,
        {
            let sh: u8 = (7 - k) as u8;
            let bit: bool = ((b >> sh) & 1) == 1;
            proof {
                let i = 8 * idx as int + k as int;
                lemma_mul8_div_mod(idx as int, k as int);
                assert(bits_of_bytes(bytes@)[i] == byte_bit(bytes@[idx as int], k as int));
                assert(bit == byte_bit(b, k as int));
            }
            bits.push(bit);
            proof {
                assert(bits@ =~= bits_of_bytes(bytes@).take(8 * idx as int + k as int + 1));
            }
            k = k + 1;
        }
        idx = idx + 1;
    }
    proof {
        assert(bits@ =~= bits_of_bytes(bytes@));
    }
    bits
}

/// Packs bits 8 at a time, most-significant bit first; the final partial chunk
/// is zero-padded on the low-order side.
pub fn bits_to_bytes(bits: &[bool]) -> (bytes: Vec<u8>)
    ensures
        bytes@ == bits_to_bytes_spec(bits@),
{
    let mut result: Vec<u8> = Vec::new();
    let mut i: usize = 0;
    while i < bits.len()
        invariant
            i <= bits@.len(),
            i % 8 == 0 || i == bits@.len(),
            result@.len() == (i + 7) / 8,
            result@ == bits_to_bytes_spec(bits@).take(((i + 7) / 8) as int),
        decreases bits@.len() - i,
    {
        proof {
            assert(i % 8 == 0);
        }
        let ghost j0 = result@.len() as int;
        let ghost base = i as int;
        proof {
            lemma_mul8_div_mod(base / 8, 0);
            lemma_fundamental_div_mod(base, 8);
            assert(base == 8 * j0) by {
                lemma_mul8_div_mod(j0, 7);
            }
            lemma2_to64();
        }
        let mut byte: u8 = 0;
        let mut k: usize = 0;
        while k < 8
            invariant
                k <= 8,
                base == 8 * j0,
                base < bits@.len(),
                i as int == (if base + k <= bits@.len() {
                    base + k as int
                } else {
                    bits@.len() as int
                }),
                i <= bits@.len(),
                byte as nat == chunk_value(bits@, base, k as nat),
                (byte as nat) < pow2(k as nat),
            decreases 8 - k,
        {
            let c: u8 = if i < bits.len() && bits[i] {
                1
            } else {
                0
            };
            proof {
                assert((c == 1) == bit_or_zero(bits@, base + k as int));
                lemma_pow2_bounds_for_byte(k as nat);
                lemma2_to64();
            }
            byte = 2 * byte + c;
            if i < bits.len() {
                i = i + 1;
            }
            k = k + 1;
            proof {
                assert(byte as nat == chunk_value(bits@, base, k as nat));
                assert((byte as nat) < pow2(k as nat)) by {
                    lemma_chunk_value_bound(bits@, base, k as nat);
                }
            }
        }
        proof {
            lemma_chunk_value_bound(bits@, base, 8);
            lemma2_to64();
            assert(packed_byte(bits@, j0) == byte);
        }
        result.push(byte);
        proof {
            assert(result@.len() == j0 + 1);
            if base + 8 <= bits@.len() {
                assert(i as int == base + 8);
                lemma_mul8_div_mod(j0 + 1, 7);
                assert((i + 7) as int / 8 == j0 + 1);
            } else {
                assert(i as int == bits@.len());
                lemma_fundamental_div_mod_converse(
                    i as int + 7,
                    8,
                    j0 + 1,
                    i as int + 7 - 8 * (j0 + 1),
                );
                assert((i + 7) as int / 8 == j0 + 1);
            }
            assert(result@ =~= bits_to_bytes_spec(bits@).take(j0 + 1));
        }
    }
    proof {
        if bits@.len() == 0 {
            assert(result@ =~= bits_to_bytes_spec(bits@));
        } else {
            assert(i == bits@.len());
            assert(result@ =~= bits_to_bytes_spec(bits@));
        }
    }
    result
}

/// Bound used while accumulating a byte bit by bit.
proof fn lemma_pow2_bounds_for_byte(k: nat)
    requires
        k < 8,
    ensures
        pow2(k) <= 128,
{
    lemma2_to64();
    if k < 7 {
        lemma_pow2_strictly_increases(k, 7);
    }
}

/// The 4-byte big-endian array of a 32-bit unsigned integer.
pub fn u32_to_u8_array(number: u32) -> (bytes: [u8; 4])
    ensures
        bytes@ == u32_bytes(number),
{
    let byte1: u8 = (number >> 24) as u8;
    let byte2: u8 = (number >> 16) as u8;
    let byte3: u8 = (number >> 8) as u8;
    let byte4: u8 = number as u8;
    let bytes: [u8; 4] = [byte1, byte2, byte3, byte4];
    proof {
        assert(bytes@ =~= u32_bytes(number));
    }
    bytes
}

/// The 32-bit unsigned integer read from a 4-byte big-endian array.
pub fn u8_array_to_u32(bytes: &[u8; 4]) -> (number: u32)
    ensures
        number == u32_of_bytes(bytes@),
{
    ((bytes[0] as u32) << 24) | ((bytes[1] as u32) << 16) | ((bytes[2] as u32) << 8) | (
    bytes[3] as u32)
}

} // verus!
