use dot_tree::header::decode_header;
use dot_tree::header::encode_header;
use dot_tree::Feature;
use dot_tree::TreeFileError;

const MAGIC: [u8; 8] = [0x4E, 0x45, 0x4B, 0x4F, 0x54, 0x52, 0x45, 0x45];

#[test]
fn encode_header_layout() {
    let encoded = encode_header(true, &vec![4]);
    let mut expected: Vec<u8> = Vec::new();
    expected.extend_from_slice(&MAGIC);
    expected.extend_from_slice(&[0, 0]); // version
    expected.extend_from_slice(&[0x80, 0]); // feature bitmask, bit 0 set
    expected.extend_from_slice(&[0, 0, 0, 1]); // subitem count
    expected.extend_from_slice(&[0, 0, 0, 4]); // subitem width
    assert_eq!(encoded, expected);
}

#[test]
fn encode_header_without_disabling_clears_feature_bits() {
    let encoded = encode_header(false, &vec![3, 7]);
    assert_eq!(&encoded[10..12], &[0, 0]);
    assert_eq!(encoded.len(), 16 + 2 * 4);
    assert_eq!(&encoded[12..16], &[0, 0, 0, 2]);
    assert_eq!(&encoded[16..20], &[0, 0, 0, 3]);
    assert_eq!(&encoded[20..24], &[0, 0, 0, 7]);
}

#[test]
fn decode_recovers_encoded_header() {
    let encoded = encode_header(true, &vec![4, 9, 1]);
    let (features, widths) = decode_header(&encoded).unwrap();
    assert_eq!(features, vec![Feature::Disabling]);
    assert_eq!(widths, vec![4, 9, 1]);

    let encoded = encode_header(false, &vec![12]);
    let (features, widths) = decode_header(&encoded).unwrap();
    assert_eq!(features, Vec::<Feature>::new());
    assert_eq!(widths, vec![12]);
}

#[test]
fn decode_rejects_short_image() {
    let r = decode_header(&vec![0x4E, 0x45]);
    assert!(matches!(r, Err(TreeFileError::MissingHeaders)));
}

#[test]
fn decode_rejects_wrong_identifier() {
    let mut encoded = encode_header(false, &vec![4]);
    encoded[0] = 0x00;
    let r = decode_header(&encoded);
    assert!(matches!(r, Err(TreeFileError::InvalidIdentifier)));
}

#[test]
fn decode_rejects_wrong_version() {
    let mut encoded = encode_header(false, &vec![4]);
    encoded[9] = 1;
    let r = decode_header(&encoded);
    assert!(matches!(r, Err(TreeFileError::UnsupportedFormatVersion)));
}

#[test]
fn decode_rejects_truncated_width_table() {
    let encoded = encode_header(false, &vec![4, 5]);
    let truncated: Vec<u8> = encoded[..encoded.len() - 3].to_vec();
    let r = decode_header(&truncated);
    assert!(matches!(r, Err(TreeFileError::MissingHeaders)));
}

#[test]
fn decode_ignores_reserved_feature_bits() {
    let mut encoded = encode_header(false, &vec![2]);
    encoded[11] = 0xFF; // reserved low byte of the bitmask
    let (features, widths) = decode_header(&encoded).unwrap();
    assert_eq!(features, Vec::<Feature>::new());
    assert_eq!(widths, vec![2]);
}
