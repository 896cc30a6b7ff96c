//! Bit-exact access to byte-unaligned bit ranges of a byte image: reading a
//! bit range, and a read-modify-write splice that rewrites a bit range while
//! preserving the neighboring bits that share its boundary bytes.
use vstd::prelude::*;

verus! {

use vstd::arithmetic::div_mod::lemma_fundamental_div_mod;
use crate::utils::bits_of_bytes;
use crate::utils::bits_to_bytes;
use crate::utils::bits_to_bytes_spec;
use crate::utils::byte_bit;
use crate::utils::bytes_to_bits;
use crate::utils::lemma_bits_bytes_round_trip_exact;
use crate::utils::lemma_mul8_div_mod;

/// The bit expansion of a byte subrange is the matching subrange of the whole
/// bit expansion.
pub proof fn lemma_bits_of_subrange(bytes: Seq<u8>, a: int, b: int)
    requires
        0 <= a <= b <= bytes.len(),
    ensures
        bits_of_bytes(bytes.subrange(a, b)) == bits_of_bytes(bytes).subrange(8 * a, 8 * b),
{
    let sub = bits_of_bytes(bytes.subrange(a, b));
    let whole = bits_of_bytes(bytes).subrange(8 * a, 8 * b);
    assert forall|i: int| 0 <= i < sub.len() implies sub[i] == whole[i] by {
        lemma_fundamental_div_mod(i, 8);
        lemma_mul8_div_mod(a + i / 8, i % 8);
        assert(8 * a + i == 8 * (a + i / 8) + i % 8);
        assert(sub[i] == byte_bit(bytes[a + i / 8], i % 8));
        assert(whole[i] == byte_bit(bytes[(8 * a + i) / 8], (8 * a + i) % 8));
    }
    assert(sub =~= whole);
}

/// The number of bytes spanned by a bit range of length `len` that begins
/// `pad` bits into its first byte.
pub open spec fn span_bytes(pad: int, len: int) -> int {
    (pad + len + 7) / 8
}

proof fn lemma_span_bytes_bounds(pad: int, len: int)
    requires
        0 <= pad,
        0 <= len,
    ensures
        pad + len <= 8 * span_bytes(pad, len),
        8 * span_bytes(pad, len) <= pad + len + 7,
{
    lemma_fundamental_div_mod(pad + len + 7, 8);
}

/// Reads the `len` bits that begin `pad` bits into byte `start_byte`,
/// as a byte-aligned span read followed by a slice.
pub fn read_bit_range(bytes: &Vec<u8>, start_byte: usize, pad: usize, len: usize) -> (bits: Vec<
    bool,
>)
    requires
        pad < 8,
        8 * start_byte + pad + len <= 8 * bytes@.len(),
        pad + len + 7 <= usize::MAX,
    ensures
        bits@ == bits_of_bytes(bytes@).subrange(
            8 * start_byte + pad,
            8 * start_byte + pad + len,
        ),
{
    let buf_len: usize = (pad + len + 7) / 8;
    let n: usize = bytes.len();
    proof {
        lemma_span_bytes_bounds(pad as int, len as int);
        assert(start_byte + buf_len <= bytes@.len());
    }
    let mut span: Vec<u8> = Vec::new();
    let mut j: usize = 0;
    while j < buf_len
        invariant
            j <= buf_len,
            n == bytes@.len(),
            start_byte + buf_len <= bytes@.len(),
            span@ == bytes@.subrange(start_byte as int, start_byte as int + j),
        decreases buf_len - j,
    {
        span.push(bytes[start_byte + j]);
        proof {
            assert(span@ =~= bytes@.subrange(start_byte as int, start_byte as int + j + 1));
        }
        j = j + 1;
    }
    let span_bits: Vec<bool> = bytes_to_bits(span.as_slice());
    proof {
        lemma_bits_of_subrange(bytes@, start_byte as int, start_byte as int + buf_len as int);
    }
    let mut bits: Vec<bool> = Vec::new();
    let mut k: usize = 0;
    while k < len
        invariant
            k <= len,
            pad + len + 7 <= usize::MAX,
            pad + len <= span_bits@.len(),
            span_bits@ == bits_of_bytes(bytes@).subrange(
                8 * start_byte as int,
                8 * (start_byte as int + buf_len as int),
            ),
            start_byte + buf_len <= bytes@.len(),
            bits@ == span_bits@.subrange(pad as int, pad as int + k),
        decreases len - k,
    {
        bits.push(span_bits[pad + k]);
        proof {
            assert(bits@ =~= span_bits@.subrange(pad as int, pad as int + k + 1));
        }
        k = k + 1;
    }
    proof {
        assert(bits@ =~= bits_of_bytes(bytes@).subrange(
            8 * start_byte + pad,
            8 * start_byte + pad + len,
        ));
    }
    bits
}

/// Splices `bits` over the bit range that begins `pad` bits into byte
/// `start_byte`: the minimal byte span holding the range is read, the range's
/// bits are replaced, and the span is written back, so the bits on either
/// side that share the boundary bytes are preserved.
pub fn write_bit_range(bytes: &mut Vec<u8>, start_byte: usize, pad: usize, bits: &Vec<bool>)
    requires
        pad < 8,
        8 * start_byte + pad + bits@.len() <= 8 * old(bytes)@.len(),
        pad + bits@.len() + 7 <= usize::MAX,
    ensures
        final(bytes)@.len() == old(bytes)@.len(),
        forall|t: int|
            0 <= t < old(bytes)@.len() && !(start_byte <= t < start_byte + span_bytes(
                pad as int,
                bits@.len() as int,
            )) ==> final(bytes)@[t] == old(bytes)@[t],
        forall|i: int|
            0 <= i < 8 * old(bytes)@.len() ==> #[trigger] bits_of_bytes(final(bytes)@)[i] == (if 8
                * start_byte + pad <= i < 8 * start_byte + pad + bits@.len() {
                bits@[i - (8 * start_byte + pad)]
            } else {
                bits_of_bytes(old(bytes)@)[i]
            }),
{
    let ghost bytes0 = bytes@;
    let n: usize = bytes.len();
    let len: usize = bits.len();
    let buf_len: usize = (pad + len + 7) / 8;
    proof {
        lemma_span_bytes_bounds(pad as int, len as int);
        assert(start_byte + buf_len <= bytes@.len());
    }
    let mut span: Vec<u8> = Vec::new();
    let mut j: usize = 0;
    while j < buf_len
        invariant
            j <= buf_len,
            bytes@ == bytes0,
            n == bytes@.len(),
            start_byte + buf_len <= bytes@.len(),
            span@ == bytes@.subrange(start_byte as int, start_byte as int + j),
        decreases buf_len - j,
    {
        span.push(bytes[start_byte + j]);
        proof {
            assert(span@ =~= bytes@.subrange(start_byte as int, start_byte as int + j + 1));
        }
        j = j + 1;
    }
    let ghost span0 = span@;
    let mut span_bits: Vec<bool> = bytes_to_bits(span.as_slice());
    let mut k: usize = 0;
    while k < len
        invariant
            k <= len,
            pad + len + 7 <= usize::MAX,
            pad + len <= 8 * buf_len,
            span_bits@.len() == 8 * buf_len as int,
            span0.len() == buf_len as int,
            forall|m: int|
                0 <= m < span_bits@.len() ==> #[trigger] span_bits@[m] == (if pad <= m < pad + k {
                    bits@[m - pad]
                } else {
                    bits_of_bytes(span0)[m]
                }),
            len == bits@.len(),
        decreases len - k,
    {
        let b: bool = bits[k];
        span_bits[pad + k] = b;
        k = k + 1;
    }
    let new_span: Vec<u8> = bits_to_bytes(span_bits.as_slice());
    proof {
        lemma_mul8_div_mod(buf_len as int, 7);
        lemma_mul8_div_mod(buf_len as int, 0);
        assert(new_span@.len() == buf_len);
        lemma_bits_bytes_round_trip_exact(span_bits@);
    }
    let mut j2: usize = 0;
    while j2 < buf_len
        invariant
            j2 <= buf_len,
            bytes@.len() == bytes0.len(),
            n == bytes0.len(),
            start_byte + buf_len <= bytes@.len(),
            new_span@.len() == buf_len,
            forall|t: int|
                0 <= t < bytes@.len() ==> #[trigger] bytes@[t] == (if start_byte <= t < start_byte
                    + j2 {
                    new_span@[t - start_byte]
                } else {
                    bytes0[t]
                }),
        decreases buf_len - j2,
    {
        let b: u8 = new_span[j2];
        bytes[start_byte + j2] = b;
        j2 = j2 + 1;
    }
    proof {
        let sb = start_byte as int;
        let p = pad as int;
        let l = len as int;
        let new_bits = bits_of_bytes(bytes@);
        let old_bits = bits_of_bytes(bytes0);
        lemma_bits_of_subrange(bytes0, sb, sb + buf_len as int);
        assert forall|i: int| 0 <= i < 8 * bytes0.len() implies #[trigger] new_bits[i] == (if 8
            * sb + p <= i < 8 * sb + p + l {
            bits@[i - (8 * sb + p)]
        } else {
            old_bits[i]
        }) by {
            lemma_fundamental_div_mod(i, 8);
            let q = i / 8;
            let m = i % 8;
            assert(new_bits[i] == byte_bit(bytes@[q], m));
            assert(old_bits[i] == byte_bit(bytes0[q], m));
            if q < sb {
                assert(bytes@[q] == bytes0[q]);
                assert(i < 8 * sb + p);
            } else if q >= sb + buf_len {
                assert(bytes@[q] == bytes0[q]);
                assert(i >= 8 * (sb + buf_len));
                assert(8 * sb + p + l <= 8 * (sb + buf_len));
            } else {
                assert(bytes@[q] == new_span@[q - sb]);
                lemma_mul8_div_mod(q - sb, m);
                assert(i - 8 * sb == 8 * (q - sb) + m);
                assert(bits_of_bytes(new_span@)[i - 8 * sb] == byte_bit(new_span@[q - sb], m));
                assert(bits_of_bytes(new_span@) == span_bits@);
                assert(new_bits[i] == span_bits@[i - 8 * sb]);
                assert(bits_of_bytes(span0) == old_bits.subrange(8 * sb, 8 * (sb + buf_len as int)));
                if p <= i - 8 * sb < p + l {
                    assert(span_bits@[i - 8 * sb] == bits@[i - 8 * sb - p]);
                } else {
                    assert(span_bits@[i - 8 * sb] == bits_of_bytes(span0)[i - 8 * sb]);
                    assert(bits_of_bytes(span0)[i - 8 * sb] == old_bits[i]);
                }
            }
        }
    }
}

} // verus!
