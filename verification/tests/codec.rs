use dot_tree::utils::bits_to_bytes;
use dot_tree::utils::bytes_to_bits;
use dot_tree::utils::u32_to_u8_array;
use dot_tree::utils::u8_array_to_u32;

#[test]
fn bytes_to_bits_expands_msb_first() {
    let bits = bytes_to_bits(&[0xA5]);
    assert_eq!(bits, vec![true, false, true, false, false, true, false, true]);
    assert_eq!(bytes_to_bits(&[]), Vec::<bool>::new());
    assert_eq!(bytes_to_bits(&[0x00, 0xFF]).len(), 16);
    assert_eq!(
        bytes_to_bits(&[0x80, 0x01]),
        vec![
            true, false, false, false, false, false, false, false, false, false, false, false,
            false, false, false, true
        ]
    );
}

#[test]
fn bits_to_bytes_packs_msb_first() {
    assert_eq!(
        bits_to_bytes(&[true, false, true, false, false, true, false, true]),
        vec![0xA5]
    );
    assert_eq!(bits_to_bytes(&[]), Vec::<u8>::new());
}

#[test]
fn bits_to_bytes_zero_pads_final_chunk() {
    // three bits become one byte, padded with zeros on the low-order side
    assert_eq!(bits_to_bytes(&[true, false, true]), vec![0xA0]);
    // nine bits become two bytes
    assert_eq!(
        bits_to_bytes(&[true, true, true, true, true, true, true, true, true]),
        vec![0xFF, 0x80]
    );
}

#[test]
fn bits_bytes_round_trip_whole_bytes() {
    let bytes = vec![0x00, 0x12, 0x80, 0xFF, 0x4E];
    assert_eq!(bits_to_bytes(&bytes_to_bits(&bytes)), bytes);
}

#[test]
fn bytes_bits_round_trip_prefix_for_partial_chunk() {
    let bits = vec![true, false, false, true, true];
    let unpacked = bytes_to_bits(&bits_to_bytes(&bits));
    assert_eq!(&unpacked[..bits.len()], &bits[..]);
    // the padding reads back as zeros
    assert!(unpacked[bits.len()..].iter().all(|b| !b));
}

#[test]
fn u32_to_bytes_is_big_endian() {
    assert_eq!(u32_to_u8_array(0x12345678), [0x12, 0x34, 0x56, 0x78]);
    assert_eq!(u32_to_u8_array(0), [0, 0, 0, 0]);
    assert_eq!(u32_to_u8_array(u32::MAX), [0xFF, 0xFF, 0xFF, 0xFF]);
    assert_eq!(u32_to_u8_array(4), [0, 0, 0, 4]);
}

#[test]
fn bytes_to_u32_is_big_endian() {
    assert_eq!(u8_array_to_u32(&[0x12, 0x34, 0x56, 0x78]), 0x12345678);
    assert_eq!(u8_array_to_u32(&[0, 0, 0, 0]), 0);
    assert_eq!(u8_array_to_u32(&[0, 0, 1, 0]), 256);
}

#[test]
fn u32_round_trip() {
    for n in [0u32, 1, 255, 256, 65535, 0xDEADBEEF, u32::MAX] {
        assert_eq!(u8_array_to_u32(&u32_to_u8_array(n)), n);
    }
}
