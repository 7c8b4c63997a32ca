use rtkit::healed::error::{class_of_io_kind, Error, ErrorClass, IoErrorKind};
use rtkit::healed::level::{DataClass, ProtectionLevel};
use rtkit::healed::{decode, encode};

#[test]
fn test_encode_decode_roundtrip() {
    let payload = b"hello, binary payload".to_vec();
    for level in [ProtectionLevel::High, ProtectionLevel::Medium, ProtectionLevel::Low] {
        let encoded = encode(&payload, level).unwrap();
        let decoded = decode(&encoded).unwrap();
        assert_eq!(payload, decoded);
    }
}

#[test]
fn test_decode_recovers_bit_flip() {
    let payload: Vec<u8> = (0..128).collect();
    let mut bytes = encode(&payload, ProtectionLevel::High).unwrap();
    bytes[40] ^= 0b0000_0001;
    let decoded = decode(&bytes).unwrap();
    assert_eq!(payload, decoded);
}

#[test]
fn decode_of_garbage_is_an_error() {
    assert!(decode(b"not a frame at all, definitely not one").is_err());
}

#[test]
fn error_classes() {
    assert_eq!(Error::CrcMismatch.class(), ErrorClass::Recoverable);
    assert_eq!(Error::InvalidProtectionLevel.class(), ErrorClass::Fatal);
    assert!(Error::FrameTooShort.is_recoverable());
    assert!(Error::InvalidProtectionLevel.is_fatal());
    assert!(Error::Io(std::io::Error::new(std::io::ErrorKind::NotFound, "x")).is_recoverable());
    assert!(Error::Io(std::io::Error::new(std::io::ErrorKind::PermissionDenied, "x")).is_fatal());
    assert_eq!(class_of_io_kind(IoErrorKind::TimedOut), ErrorClass::Recoverable);
    assert_eq!(class_of_io_kind(IoErrorKind::Other), ErrorClass::Fatal);
}

#[test]
fn level_codes_and_data_classes() {
    for (level, code) in [(ProtectionLevel::High, 0u8), (ProtectionLevel::Medium, 1), (ProtectionLevel::Low, 2)] {
        assert_eq!(level.code(), code);
        assert_eq!(ProtectionLevel::from_code(code), Some(level));
    }
    assert_eq!(ProtectionLevel::from_code(3), None);
    assert_eq!(DataClass::from_payload_len(4095), DataClass::Small);
    assert_eq!(DataClass::from_payload_len(4096), DataClass::Large);
}
