use rtkit::healed::level::ProtectionLevel;
use rtkit::healed::metadata::{MetaData, MetaDataHeader, HEADER_BYTES};

#[test]
fn test_metadata_encode_decode_roundtrip() {
    let original_meta = MetaData::new(123456789, ProtectionLevel::Medium, 1024);
    let header = original_meta.encode();
    let decoded_meta = header.decode().expect("decoding succeeds");
    assert_eq!(original_meta, decoded_meta);
}

#[test]
fn test_metadata_decode_with_1bit_error_correction() {
    let original_meta = MetaData::new(987654321, ProtectionLevel::High, 4096);
    let header = original_meta.encode();
    for bit in 0..(HEADER_BYTES * 8) {
        let mut corrupted_bytes = *header.as_bytes();
        corrupted_bytes[bit / 8] ^= 1 << (bit % 8);
        let corrupted_header = MetaDataHeader::from_bytes(&corrupted_bytes);
        let decoded_meta = corrupted_header
            .decode()
            .expect("a single bit error is corrected");
        assert_eq!(original_meta, decoded_meta, "bit {} was not corrected", bit);
    }
}

#[test]
fn test_metadata_decode_with_2bit_error_fails() {
    let original_meta = MetaData::new(1, ProtectionLevel::Low, 128);
    let header = original_meta.encode();
    let mut found_uncorrectable = false;
    for bit1 in 0..(HEADER_BYTES * 8) {
        for bit2 in (bit1 + 1)..(HEADER_BYTES * 8) {
            let mut corrupted_bytes = *header.as_bytes();
            corrupted_bytes[bit1 / 8] ^= 1 << (bit1 % 8);
            corrupted_bytes[bit2 / 8] ^= 1 << (bit2 % 8);
            let corrupted_header = MetaDataHeader::from_bytes(&corrupted_bytes);
            if corrupted_header.decode().is_none() {
                found_uncorrectable = true;
                break;
            }
        }
        if found_uncorrectable {
            break;
        }
    }
    assert!(found_uncorrectable, "two-bit errors are detected");
}

#[test]
fn metadata_header_packs_sequence_level_and_length() {
    let header = MetaData::new(0x0102_0304_0506_0708, ProtectionLevel::Low, 0x0A0B_0C0D).encode();
    let bytes = header.as_bytes();
    // Big-endian code word: magic 0xA55A, level 2, length, sequence, then the code byte.
    assert_eq!(&bytes[0..2], &[0xA5, 0x5A]);
    assert_eq!(bytes[2], 2);
    assert_eq!(&bytes[3..7], &[0x0A, 0x0B, 0x0C, 0x0D]);
    assert_eq!(&bytes[7..15], &[0x01, 0x02, 0x03, 0x04, 0x05, 0x06, 0x07, 0x08]);
}

#[test]
fn metadata_zero_header_is_rejected() {
    assert_eq!(MetaDataHeader::from_bytes(&[0u8; 16]).decode(), None);
}
