use rtkit::healed::error::Error;
use rtkit::healed::frame::{StorageFrame, FOOTER_SIZE, HEADERS_SIZE};
use rtkit::healed::level::ProtectionLevel;

#[test]
fn test_frame_roundtrip() {
    let payload = b"hello, robust world!".to_vec();
    let frame = StorageFrame::new(payload, 123, ProtectionLevel::Medium);
    let bytes = frame.to_bytes().unwrap();
    let recovered_frame = StorageFrame::recover(&bytes).unwrap();
    assert_eq!(frame, recovered_frame);
}

#[test]
fn test_recover_with_primary_header_corruption() {
    let payload = b"some important data".to_vec();
    let frame = StorageFrame::new(payload, 456, ProtectionLevel::Low);
    let mut bytes = frame.to_bytes().unwrap();
    bytes[5] ^= 0b11;
    let recovered_frame = StorageFrame::recover(&bytes).unwrap();
    assert_eq!(frame, recovered_frame);
}

#[test]
fn test_recover_with_payload_corruption() {
    let payload: Vec<u8> = (0..128).collect();
    let frame = StorageFrame::new(payload, 789, ProtectionLevel::High);
    let mut bytes = frame.to_bytes().unwrap();
    let payload_offset = HEADERS_SIZE + 10;
    bytes[payload_offset] ^= 0b0001_0000;
    let recovered_frame = StorageFrame::recover(&bytes).unwrap();
    assert_eq!(frame, recovered_frame);
}

#[test]
fn test_crc_mismatch_detection() {
    let payload = b"data that must be integral".to_vec();
    let frame = StorageFrame::new(payload, 1, ProtectionLevel::Medium);
    let mut bytes = frame.to_bytes().unwrap();
    let crc_offset = bytes.len() - FOOTER_SIZE;
    let current_crc = u32::from_le_bytes(bytes[crc_offset..crc_offset + 4].try_into().unwrap());
    let tampered_crc = current_crc.wrapping_add(1);
    bytes[crc_offset..crc_offset + 4].copy_from_slice(&tampered_crc.to_le_bytes());
    let result = StorageFrame::recover(&bytes);
    assert!(matches!(result, Err(Error::CrcMismatch)));
}

#[test]
fn test_unrecoverable_header_error() {
    let payload = b"test".to_vec();
    let frame = StorageFrame::new(payload, 2, ProtectionLevel::High);
    let mut bytes = frame.to_bytes().unwrap();
    bytes[0] ^= 0xff;
    bytes[1] ^= 0xff;
    bytes[16] ^= 0xff;
    bytes[17] ^= 0xff;
    let result = StorageFrame::recover(&bytes);
    assert!(matches!(result, Err(Error::UnrecoverableHeader)));
}

#[test]
fn test_padding_logic() {
    let payload1 = vec![1, 2, 3];
    let padded1 = StorageFrame::pad_payload(&payload1, ProtectionLevel::Medium);
    assert_eq!(padded1.len(), 4);
    assert_eq!(&padded1, &[1, 2, 3, 0]);

    let payload2 = vec![1, 2, 3, 4, 5];
    let padded2 = StorageFrame::pad_payload(&payload2, ProtectionLevel::Low);
    assert_eq!(padded2.len(), 8);
    assert_eq!(&padded2, &[1, 2, 3, 4, 5, 0, 0, 0]);

    let payload3 = vec![1, 2, 3];
    let padded3 = StorageFrame::pad_payload(&payload3, ProtectionLevel::High);
    assert_eq!(padded3.len(), 3);
    assert_eq!(payload3, padded3);
}

#[test]
fn frame_too_short_is_refused() {
    assert!(matches!(StorageFrame::recover(&[0u8; 39]), Err(Error::FrameTooShort)));
}

#[test]
fn frame_length_mismatch_is_invalid_format() {
    let frame = StorageFrame::new(vec![7u8; 8], 3, ProtectionLevel::Medium);
    let mut bytes = frame.to_bytes().unwrap();
    bytes.insert(HEADERS_SIZE, 0);
    assert!(matches!(StorageFrame::recover(&bytes), Err(Error::InvalidFrameFormat)));
}

#[test]
fn frame_layout_sizes() {
    for (level, block_bytes) in [(ProtectionLevel::High, 2usize), (ProtectionLevel::Medium, 8), (ProtectionLevel::Low, 16)] {
        let frame = StorageFrame::new(vec![1u8; 8], 9, level);
        let bytes = frame.to_bytes().unwrap();
        let blocks = match level {
            ProtectionLevel::High => 8,
            ProtectionLevel::Medium => 2,
            ProtectionLevel::Low => 1,
        };
        assert_eq!(bytes.len(), HEADERS_SIZE + blocks * block_bytes + FOOTER_SIZE);
        assert_eq!(&bytes[0..16], &bytes[16..32]);
    }
}

#[test]
fn frame_single_bit_flips_in_primary_header_are_repaired() {
    let frame = StorageFrame::new(b"repair me".to_vec(), 77, ProtectionLevel::Low);
    let bytes = frame.to_bytes().unwrap();
    for bit in 0..128 {
        let mut damaged = bytes.clone();
        damaged[bit / 8] ^= 1 << (bit % 8);
        assert_eq!(StorageFrame::recover(&damaged).unwrap(), frame, "bit {bit}");
    }
}
