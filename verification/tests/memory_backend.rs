use rtkit::bitflip::{BitFlipConfig, BitFlipTarget};
use rtkit::healed::error::Error;
use rtkit::healed::vault::MemoryBackend;

fn count_diff_bits(lhs: &[u8], rhs: &[u8]) -> usize {
    assert_eq!(lhs.len(), rhs.len(), "length mismatch");
    lhs.iter().zip(rhs.iter()).map(|(l, r)| (l ^ r).count_ones() as usize).sum()
}

#[test]
fn test_memory_backend_read_write_and_header() {
    let mut backend = MemoryBackend::new(3);
    backend.ensure_backend_exists().unwrap();

    let payload = vec![1u8, 2, 3, 4, 5];
    backend.write_slot(1, &payload).unwrap();

    let full = backend.read_slot(1).unwrap();
    assert_eq!(full, payload);

    let header = backend.read_header(1, 3).unwrap();
    assert_eq!(header, vec![1u8, 2, 3]);

    assert!(matches!(
        backend.read_slot(0),
        Err(Error::Io(ref e)) if e.kind() == std::io::ErrorKind::NotFound
    ));
}

#[test]
fn test_backend_bitflip_disabled_by_default() {
    let mut backend = MemoryBackend::new(3);
    let payload = vec![0x5Au8; 64];

    backend.write_slot(0, &payload).unwrap();
    let stored = backend.read_slot(0).unwrap();

    assert_eq!(stored, payload);
}

#[test]
fn test_backend_bitflip_injection_enabled_cases() {
    let payload = vec![0xA3u8; 64];
    let config = BitFlipConfig::new(5, Some(12345), BitFlipTarget::FullFrame);
    let mut backend = MemoryBackend::new(3).with_bitflip_for_tests(config);
    backend.write_slot(1, &payload).unwrap();
    let stored = backend.read_slot(1).unwrap();

    assert_eq!(count_diff_bits(&payload, &stored), config.flip_bits);
}

#[test]
fn test_memory_backend_boundary_invalid_index() {
    let mut backend = MemoryBackend::new(3);

    assert!(matches!(
        backend.read_slot(3),
        Err(Error::Io(ref e)) if e.kind() == std::io::ErrorKind::InvalidInput
    ));
    assert!(matches!(
        backend.read_header(99, 8),
        Err(Error::Io(ref e)) if e.kind() == std::io::ErrorKind::InvalidInput
    ));
    assert!(matches!(
        backend.write_slot(10, &[1, 2, 3]),
        Err(Error::Io(ref e)) if e.kind() == std::io::ErrorKind::InvalidInput
    ));
}

#[test]
fn test_memory_backend_boundary_zero_header_len() {
    let mut backend = MemoryBackend::new(3);
    backend.write_slot(0, &[1, 2, 3, 4]).unwrap();

    let header = backend.read_header(0, 0).unwrap();
    assert!(header.is_empty());
}

#[test]
fn memory_backend_write_leaves_other_slots() {
    let mut backend = MemoryBackend::new(4);
    backend.write_slot(0, &[9, 9]).unwrap();
    backend.write_slot(2, &[7]).unwrap();
    backend.write_slot(0, &[1]).unwrap();
    assert_eq!(backend.num_slots(), 4);
    assert_eq!(backend.read_slot(0).unwrap(), vec![1]);
    assert_eq!(backend.read_slot(2).unwrap(), vec![7]);
    assert!(backend.read_slot(1).is_err());
    assert_eq!(backend.read_header(2, 10).unwrap(), vec![7]);
}
