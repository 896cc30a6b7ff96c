//! Header codec: encodes and decodes the fixed file header (magic identifier,
//! format version, feature bitmask, and the subitem-width table).
use vstd::prelude::*;

verus! {

use crate::utils::byte_bit;
use crate::utils::lemma_u32_round_trip;
use crate::utils::u32_bytes;
use crate::utils::u32_of_bytes;
use crate::utils::u32_to_u8_array;
use crate::utils::u8_array_to_u32;
use crate::Feature;
use crate::TreeFileError;

/// The 8-byte magic constant identifying the format.
pub open spec fn spec_identifier() -> Seq<u8> {
    seq![0x4eu8, 0x45u8, 0x4bu8, 0x4fu8, 0x54u8, 0x52u8, 0x45u8, 0x45u8]
}

/// The supported 2-byte format version.
pub open spec fn spec_version() -> Seq<u8> {
    seq![0u8, 0u8]
}

/// The 2-byte feature bitmask: bit 0 (the most significant bit of the first
/// byte) is the Disabling feature; the remaining 15 bits are reserved as zero.
pub open spec fn feature_bytes(disabling: bool) -> Seq<u8> {
    seq![
        if disabling {
            0x80u8
        } else {
            0u8
        },
        0u8,
    ]
}

/// The concatenated 4-byte big-endian encodings of the subitem widths.
pub open spec fn widths_bytes(widths: Seq<u32>) -> Seq<u8>
    decreases widths.len(),
{
    if widths.len() == 0 {
        Seq::empty()
    } else {
        widths_bytes(widths.drop_last()) + u32_bytes(widths.last())
    }
}

/// The encoded header: identifier, version, feature bitmask, subitem count,
/// then each subitem width, 16 + 4 × count bytes in all.
pub open spec fn header_bytes(disabling: bool, widths: Seq<u32>) -> Seq<u8> {
    spec_identifier() + spec_version() + feature_bytes(disabling) + u32_bytes(
        widths.len() as u32,
    ) + widths_bytes(widths)
}

/// The identifier and version bytes of the image are the supported ones.
pub open spec fn header_prefix_ok(bytes: Seq<u8>) -> bool {
    &&& bytes.len() >= 16
    &&& bytes.subrange(0, 8) == spec_identifier()
    &&& bytes.subrange(8, 10) == spec_version()
}

/// The subitem count declared by the header bytes.
pub open spec fn declared_count(bytes: Seq<u8>) -> int {
    u32_of_bytes(bytes.subrange(12, 16)) as int
}

/// The byte image begins with a readable header declaring the Disabling flag
/// `disabling` and the subitem widths `widths`.
pub open spec fn header_parses(bytes: Seq<u8>, disabling: bool, widths: Seq<u32>) -> bool {
    &&& header_prefix_ok(bytes)
    &&& bytes.len() >= 16 + 4 * widths.len()
    &&& byte_bit(bytes[10], 0) == disabling
    &&& widths.len() == declared_count(bytes)
    &&& forall|i: int|
        0 <= i < widths.len() ==> widths[i] == u32_of_bytes(
            #[trigger] bytes.subrange(16 + 4 * i, 20 + 4 * i),
        )
}

/// The width table takes 4 bytes per width.
pub proof fn lemma_widths_bytes_len(widths: Seq<u32>)
    ensures
        widths_bytes(widths).len() == 4 * widths.len(),
    decreases widths.len(),
{
    if widths.len() > 0 {
        lemma_widths_bytes_len(widths.drop_last());
    }
}

/// Each width is encoded at its own 4-byte slot of the width table.
pub proof fn lemma_widths_bytes_slot(widths: Seq<u32>, i: int)
    requires
        0 <= i < widths.len(),
    ensures
        widths_bytes(widths).subrange(4 * i, 4 * i + 4) == u32_bytes(widths[i]),
    decreases widths.len(),
{
    lemma_widths_bytes_len(widths);
    lemma_widths_bytes_len(widths.drop_last());
    if i == widths.len() - 1 {
        assert(widths_bytes(widths).subrange(4 * i, 4 * i + 4) =~= u32_bytes(widths.last()));
    } else {
        lemma_widths_bytes_slot(widths.drop_last(), i);
        assert(widths_bytes(widths).subrange(4 * i, 4 * i + 4) =~= widths_bytes(
            widths.drop_last(),
        ).subrange(4 * i, 4 * i + 4));
    }
}

/// Header fidelity: the encoded header parses back to exactly the Disabling
/// flag and the widths it was encoded from.
pub proof fn lemma_header_round_trip(disabling: bool, widths: Seq<u32>)
    requires
        widths.len() <= u32::MAX,
    ensures
        header_bytes(disabling, widths).len() == 16 + 4 * widths.len(),
        header_parses(header_bytes(disabling, widths), disabling, widths),
{
    let h = header_bytes(disabling, widths);
    lemma_widths_bytes_len(widths);
    assert(h.subrange(0, 8) =~= spec_identifier());
    assert(h.subrange(8, 10) =~= spec_version());
    assert(h[10] == feature_bytes(disabling)[0]);
    assert(((0x80u8 >> 7) & 1) == 1 && ((0u8 >> 7) & 1) == 0) by (bit_vector);
    assert(byte_bit(h[10], 0) == disabling);
    assert(h.subrange(12, 16) =~= u32_bytes(widths.len() as u32));
    lemma_u32_round_trip(widths.len() as u32);
    assert forall|i: int| 0 <= i < widths.len() implies widths[i] == u32_of_bytes(
        #[trigger] h.subrange(16 + 4 * i, 20 + 4 * i),
    ) by {
        lemma_widths_bytes_slot(widths, i);
        assert(h.subrange(16 + 4 * i, 20 + 4 * i) =~= widths_bytes(widths).subrange(
            4 * i,
            4 * i + 4,
        ));
        lemma_u32_round_trip(widths[i]);
        crate::utils::lemma_bytes_u32_round_trip(h.subrange(16 + 4 * i, 20 + 4 * i));
    }
}

/// Parsing a header is deterministic: one image declares one Disabling flag
/// and one width table. Together with `lemma_header_round_trip` this gives
/// header fidelity: an image created for a feature set and width table opens
/// with exactly those.
pub proof fn lemma_header_parse_deterministic(
    bytes: Seq<u8>,
    d1: bool,
    w1: Seq<u32>,
    d2: bool,
    w2: Seq<u32>,
)
    requires
        header_parses(bytes, d1, w1),
        header_parses(bytes, d2, w2),
    ensures
        d1 == d2,
        w1 == w2,
{
    assert(w1.len() == w2.len());
    assert forall|i: int| 0 <= i < w1.len() implies w1[i] == w2[i] by {
        assert(w1[i] == u32_of_bytes(bytes.subrange(16 + 4 * i, 20 + 4 * i)));
        assert(w2[i] == u32_of_bytes(bytes.subrange(16 + 4 * i, 20 + 4 * i)));
    }
    assert(w1 =~= w2);
}

/// Encodes the header for the given Disabling flag and subitem widths.
pub fn encode_header(disabling: bool, subitems: &Vec<u32>) -> (bytes: Vec<u8>)
    requires
        subitems@.len() <= u32::MAX,
    ensures
        bytes@ == header_bytes(disabling, subitems@),
{
    let ghost prefix = spec_identifier() + spec_version() + feature_bytes(disabling) + u32_bytes(
        subitems@.len() as u32,
    );
    let mut out: Vec<u8> = Vec::new();
    out.push(0x4e);
    out.push(0x45);
    out.push(0x4b);
    out.push(0x4f);
    out.push(0x54);
    out.push(0x52);
    out.push(0x45);
    out.push(0x45);
    out.push(0);
    out.push(0);
    if disabling {
        out.push(0x80);
    } else {
        out.push(0);
    }
    out.push(0);
    let count_bytes: [u8; 4] = u32_to_u8_array(subitems.len() as u32);
    out.push(count_bytes[0]);
    out.push(count_bytes[1]);
    out.push(count_bytes[2]);
    out.push(count_bytes[3]);
    proof {
        assert(out@ =~= prefix + widths_bytes(subitems@.take(0)));
    }
    let mut i: usize = 0;
    while i < subitems.len()
        invariant
            i <= subitems@.len(),
            subitems@.len() <= u32::MAX,
            out@ == prefix + widths_bytes(subitems@.take(i as int)),
        decreases subitems@.len() - i,
    {
        let width_bytes: [u8; 4] = u32_to_u8_array(subitems[i]);
        out.push(width_bytes[0]);
        out.push(width_bytes[1]);
        out.push(width_bytes[2]);
        out.push(width_bytes[3]);
        proof {
            let taken = subitems@.take(i as int + 1);
            assert(taken.drop_last() =~= subitems@.take(i as int));
            assert(taken.last() == subitems@[i as int]);
            assert(width_bytes@ =~= u32_bytes(subitems@[i as int]));
            assert(out@ =~= prefix + widths_bytes(taken));
        }
        i = i + 1;
    }
    proof {
        assert(subitems@.take(subitems@.len() as int) =~= subitems@);
    }
    out
}

/// Decodes the header at the front of a byte image, yielding the features and
/// the subitem widths it declares.
pub fn decode_header(bytes: &Vec<u8>) -> (r: Result<(Vec<Feature>, Vec<u32>), TreeFileError>)
    ensures
        match r {
            Ok(parsed) => {
                &&& header_parses(bytes@, parsed.0@.contains(Feature::Disabling), parsed.1@)
                &&& parsed.0@ == (if byte_bit(bytes@[10], 0) {
                    seq![Feature::Disabling]
                } else {
                    Seq::<Feature>::empty()
                })
            },
            Err(TreeFileError::MissingHeaders) => bytes@.len() < 16 || (header_prefix_ok(bytes@)
                && bytes@.len() < 16 + 4 * declared_count(bytes@)),
            Err(TreeFileError::InvalidIdentifier) => bytes@.len() >= 16 && bytes@.subrange(0, 8)
                != spec_identifier(),
            Err(TreeFileError::UnsupportedFormatVersion) => bytes@.len() >= 16 && bytes@.subrange(
                0,
                8,
            ) == spec_identifier() && bytes@.subrange(8, 10) != spec_version(),
            _ => false,
        },
{
    let n: usize = bytes.len();
    if n < 16 {
        return Err(TreeFileError::MissingHeaders);
    }
    proof {
        assert(bytes@.subrange(0, 8)[0] == bytes@[0]);
        assert(bytes@.subrange(0, 8)[1] == bytes@[1]);
        assert(bytes@.subrange(0, 8)[2] == bytes@[2]);
        assert(bytes@.subrange(0, 8)[3] == bytes@[3]);
        assert(bytes@.subrange(0, 8)[4] == bytes@[4]);
        assert(bytes@.subrange(0, 8)[5] == bytes@[5]);
        assert(bytes@.subrange(0, 8)[6] == bytes@[6]);
        assert(bytes@.subrange(0, 8)[7] == bytes@[7]);
        assert(bytes@.subrange(8, 10)[0] == bytes@[8]);
        assert(bytes@.subrange(8, 10)[1] == bytes@[9]);
    }
    if !(bytes[0] == 0x4e && bytes[1] == 0x45 && bytes[2] == 0x4b && bytes[3] == 0x4f && bytes[4]
        == 0x54 && bytes[5] == 0x52 && bytes[6] == 0x45 && bytes[7] == 0x45) {
        return Err(TreeFileError::InvalidIdentifier);
    }
    proof {
        assert(bytes@.subrange(0, 8) =~= spec_identifier());
    }
    if !(bytes[8] == 0 && bytes[9] == 0) {
        return Err(TreeFileError::UnsupportedFormatVersion);
    }
    proof {
        assert(bytes@.subrange(8, 10) =~= spec_version());
    }
    let mut features: Vec<Feature> = Vec::new();
    let feature_byte: u8 = bytes[10];
    if ((feature_byte >> 7) & 1) == 1 {
        features.push(Feature::Disabling);
    }
    proof {
        if byte_bit(bytes@[10], 0) {
            assert(features@[0] == Feature::Disabling);
            assert(features@.contains(Feature::Disabling));
        } else {
            assert(forall|i: int| 0 <= i < features@.len() ==> features@[i] != Feature::Disabling);
        }
    }
    let count_arr: [u8; 4] = [bytes[12], bytes[13], bytes[14], bytes[15]];
    proof {
        assert(count_arr@ =~= bytes@.subrange(12, 16));
    }
    let count: u32 = u8_array_to_u32(&count_arr);
    if (n as u64) < 16u64 + 4u64 * (count as u64) {
        return Err(TreeFileError::MissingHeaders);
    }
    let mut subitems: Vec<u32> = Vec::new();
    let mut i: usize = 0;
    while i < count as usize
        invariant
            i <= count,
            n == bytes@.len(),
            bytes@.len() >= 16 + 4 * (count as int),
            subitems@.len() == i,
            forall|t: int|
                0 <= t < i ==> subitems@[t] == u32_of_bytes(
                    #[trigger] bytes@.subrange(16 + 4 * t, 20 + 4 * t),
                ),
        decreases count - i,
    {
        let off: usize = 16 + 4 * i;
        let width_arr: [u8; 4] = [bytes[off], bytes[off + 1], bytes[off + 2], bytes[off + 3]];
        proof {
            assert(width_arr@ =~= bytes@.subrange(16 + 4 * i as int, 20 + 4 * i as int));
        }
        subitems.push(u8_array_to_u32(&width_arr));
        i = i + 1;
    }
    Ok((features, subitems))
}

} // verus!
