use rtkit::healed::compression::{
    is_compressed_payload, maybe_compress_payload, maybe_decompress_payload, CompressionPolicy,
};
use rtkit::healed::error::Error;
use rtkit::healed::level::DataClass;

#[test]
fn compression_disabled_keeps_payload() {
    let payload = vec![0u8; 4096];
    let out = maybe_compress_payload(&payload, DataClass::Large, CompressionPolicy::disabled()).unwrap();
    assert_eq!(out, payload);
    let out = maybe_compress_payload(&payload, DataClass::Small, CompressionPolicy::enabled().with_small_enabled(false)).unwrap();
    assert_eq!(out, payload);
}

#[test]
fn compression_roundtrip_and_header() {
    let payload = vec![7u8; 10_000];
    let out = maybe_compress_payload(&payload, DataClass::Large, CompressionPolicy::enabled()).unwrap();
    assert!(out.len() < payload.len());
    assert!(is_compressed_payload(&out));
    assert_eq!(&out[0..6], &[0x48, 0x53, 0x5A, 0x31, 1, 1]);
    assert_eq!(u64::from_le_bytes(out[6..14].try_into().unwrap()), 10_000);
    assert_eq!(maybe_decompress_payload(&out).unwrap(), payload);
}

#[test]
fn compression_skipped_when_not_shorter() {
    let payload: Vec<u8> = (0..20u8).collect();
    let out = maybe_compress_payload(&payload, DataClass::Small, CompressionPolicy::enabled()).unwrap();
    assert_eq!(out, payload);
    assert_eq!(maybe_decompress_payload(&payload).unwrap(), payload);
}

#[test]
fn decompression_length_mismatch_is_invalid_data() {
    let payload = vec![1u8; 5000];
    let mut out = maybe_compress_payload(&payload, DataClass::Large, CompressionPolicy::enabled()).unwrap();
    out[6] ^= 1;
    let result = maybe_decompress_payload(&out);
    assert!(matches!(result, Err(Error::Io(ref e)) if e.kind() == std::io::ErrorKind::InvalidData));
    assert!(Error::Io(std::io::Error::new(std::io::ErrorKind::InvalidData, "x")).is_recoverable());
}

#[test]
fn compression_policy_builders() {
    let p = CompressionPolicy::disabled().with_large_enabled(true);
    assert!(!p.is_enabled_for(DataClass::Small));
    assert!(p.is_enabled_for(DataClass::Large));
    assert_eq!(CompressionPolicy::default(), CompressionPolicy::enabled());
}
