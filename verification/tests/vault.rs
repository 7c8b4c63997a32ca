use rtkit::bitflip::{BitFlipConfig, BitFlipTarget};
use rtkit::healed::compression::{is_compressed_payload, CompressionPolicy};
use rtkit::healed::error::{Error, ErrorClass};
use rtkit::healed::level::{DataClass, ProtectionLevel, SMALL_DATA_THRESHOLD_BYTES};
use rtkit::healed::rs::{RS_DATA_BYTES_PER_SEGMENT, RS_RECORD_HEADER_BYTES, RS_SHARD_BYTES, RS_TOTAL_SHARDS};
use rtkit::healed::tmr::{TmrStrategy, TMR_HEADER_GROUP_BYTES};
use rtkit::healed::vault::generation_target_from_reads;
use rtkit::healed::vault::{
    decode_slot_payload, scan_slot_sequence, MemoryBackend, ReliableVault, StorageBackend, SLOT_SCAN_BYTES,
};

/// `(id, message)`, serialised as a struct of these two fields would be.
type TestData = (u32, String);
/// `(id, payload)`.
type LargeCaseData = (u64, Vec<u8>);

fn ser<T: serde::Serialize>(data: &T) -> Vec<u8> {
    bincode::serialize(data).unwrap()
}

fn de<T: serde::de::DeserializeOwned>(bytes: &[u8]) -> T {
    bincode::deserialize(bytes).unwrap()
}

fn test_data(id: u32) -> TestData {
    (id, format!("msg {}", id))
}

fn build_large_case_data(id: u64, payload_len: usize) -> LargeCaseData {
    (id, (0..payload_len).map(|index| ((id as usize + index) % 251) as u8).collect())
}

fn load_id(vault: &ReliableVault<MemoryBackend>) -> u32 {
    de::<TestData>(&vault.load().unwrap()).0
}

/// Applies `mutator` to the bytes of slot `index` of the vault's backend.
fn mutate_slot(
    vault: ReliableVault<MemoryBackend>,
    num_slots: usize,
    index: usize,
    mutator: impl FnOnce(&mut Vec<u8>),
) -> ReliableVault<MemoryBackend> {
    let policy = vault.compression_policy();
    let mut backend = vault.into_backend();
    let mut bytes = backend.read_slot(index).unwrap();
    mutator(&mut bytes);
    backend.write_slot(index, &bytes).unwrap();
    ReliableVault::new(backend, num_slots).with_compression_policy(policy)
}

fn corrupt_footer_crc(bytes: &mut Vec<u8>) {
    let crc_pos = bytes.len() - 8;
    bytes[crc_pos] ^= 0xFF;
}

fn corrupt_rs_segment_shards(bytes: &mut [u8], shard_indices: &[usize]) {
    let shard_crc_table_bytes = RS_TOTAL_SHARDS * 4;
    let shard_data_start = RS_RECORD_HEADER_BYTES + 24 + shard_crc_table_bytes;
    for (offset, shard_index) in shard_indices.iter().enumerate() {
        let target = shard_data_start + (*shard_index * RS_SHARD_BYTES) + offset;
        bytes[target] ^= 1u8 << (offset % 8);
    }
}

fn first_present_slot(backend: &MemoryBackend, num_slots: usize) -> (usize, Vec<u8>) {
    for index in 0..num_slots {
        if let Ok(bytes) = backend.read_slot(index) {
            return (index, bytes);
        }
    }
    panic!("no present slot found");
}

fn collect_slot_sequences(backend: &MemoryBackend, num_slots: usize) -> Vec<(usize, u64)> {
    let mut entries = Vec::new();
    for index in 0..num_slots {
        let Ok(header) = backend.read_header(index, SLOT_SCAN_BYTES) else {
            continue;
        };
        if let Some(sequence) = scan_slot_sequence(&header) {
            entries.push((index, sequence));
        }
    }
    entries
}

fn is_not_found<T>(result: &Result<T, Error>) -> bool {
    matches!(result, Err(Error::Io(ref e)) if e.kind() == std::io::ErrorKind::NotFound)
}

fn is_invalid_input<T>(result: &Result<T, Error>) -> bool {
    matches!(result, Err(Error::Io(ref e)) if e.kind() == std::io::ErrorKind::InvalidInput)
}

/// A memory backend whose writes to one slot fail.
struct WriteFailBackend {
    inner: MemoryBackend,
    fail_index: usize,
}

impl StorageBackend for WriteFailBackend {
    fn read_slot(&self, index: usize) -> Result<Vec<u8>, Error> {
        self.inner.read_slot(index)
    }

    fn write_slot(&mut self, index: usize, data: &[u8]) -> Result<(), Error> {
        if index == self.fail_index {
            return Err(Error::Io(std::io::Error::new(std::io::ErrorKind::PermissionDenied, "injected write failure")));
        }
        self.inner.write_slot(index, data)
    }

    fn read_header(&self, index: usize, len: usize) -> Result<Vec<u8>, Error> {
        self.inner.read_header(index, len)
    }

    fn ensure_backend_exists(&self) -> Result<(), Error> {
        self.inner.ensure_backend_exists()
    }
}

#[test]
fn test_vault_with_memory_backend_roundtrip() {
    let mut vault = ReliableVault::new(MemoryBackend::new(3), 3);
    for i in 1..=4 {
        vault.save(&ser(&test_data(i)), ProtectionLevel::Medium).unwrap();
    }
    assert_eq!(load_id(&vault), 4);
}

#[test]
fn test_vault_with_memory_backend_fallback_after_corruption() {
    let mut vault = ReliableVault::new(MemoryBackend::new(3), 3);
    // seq: 1->slot1, 2->slot2, 3->slot0, 4->slot1
    for i in 1..=4 {
        vault.save(&ser(&test_data(i)), ProtectionLevel::High).unwrap();
    }
    let vault = mutate_slot(vault, 3, 1, corrupt_footer_crc);
    assert_eq!(load_id(&vault), 3);
}

#[test]
fn test_vault_with_memory_backend_boundary_rotation_five_slots() {
    let mut vault = ReliableVault::new(MemoryBackend::new(5), 5);
    for i in 1..=7 {
        vault.save(&ser(&test_data(i)), ProtectionLevel::Medium).unwrap();
    }
    assert_eq!(load_id(&vault), 7);

    // seq7 (slot 2) and seq6 (slot 1) broken: seq5 (slot 0) is next
    let vault = mutate_slot(vault, 5, 2, corrupt_footer_crc);
    let vault = mutate_slot(vault, 5, 1, corrupt_footer_crc);
    assert_eq!(load_id(&vault), 5);
}

#[test]
fn test_vault_rotation_and_recovery() {
    let mut vault = ReliableVault::new(MemoryBackend::new(3), 3);
    for i in 1..=4 {
        vault.save(&ser(&test_data(i)), ProtectionLevel::Medium).unwrap();
    }
    assert_eq!(load_id(&vault), 4);

    let vault = mutate_slot(vault, 3, 1, corrupt_footer_crc);
    assert_eq!(load_id(&vault), 3);
}

#[test]
fn test_vault_recovery_with_two_corrupted_slots() {
    let mut vault = ReliableVault::new(MemoryBackend::new(3), 3);
    for i in 1..=5 {
        vault.save(&ser(&test_data(i)), ProtectionLevel::Medium).unwrap();
    }
    let vault = mutate_slot(vault, 3, 2, corrupt_footer_crc);
    let vault = mutate_slot(vault, 3, 1, corrupt_footer_crc);
    assert_eq!(load_id(&vault), 3);
}

#[test]
fn test_vault_load_fails_when_all_slots_corrupted() {
    let mut vault = ReliableVault::new(MemoryBackend::new(3), 3);
    for i in 1..=3 {
        vault.save(&ser(&test_data(i)), ProtectionLevel::Low).unwrap();
    }
    let mut vault = vault;
    for slot in 0..3 {
        vault = mutate_slot(vault, 3, slot, corrupt_footer_crc);
    }
    assert!(is_not_found(&vault.load()));
}

#[test]
fn test_vault_recovery_with_truncated_latest_slot() {
    let mut vault = ReliableVault::new(MemoryBackend::new(3), 3);
    for i in 1..=4 {
        vault.save(&ser(&test_data(i)), ProtectionLevel::Medium).unwrap();
    }
    let vault = mutate_slot(vault, 3, 1, |bytes| bytes.truncate(12));
    assert_eq!(load_id(&vault), 3);
}

#[test]
fn test_vault_load_fails_when_all_slots_truncated() {
    let mut vault = ReliableVault::new(MemoryBackend::new(3), 3);
    for i in 1..=3 {
        vault.save(&ser(&test_data(i)), ProtectionLevel::High).unwrap();
    }
    let mut vault = vault;
    for slot in 0..3 {
        vault = mutate_slot(vault, 3, slot, |bytes| bytes.truncate(8));
    }
    assert!(is_not_found(&vault.load()));
}

#[test]
fn test_vault_recovery_with_header_only_latest_slot() {
    let mut vault = ReliableVault::new(MemoryBackend::new(3), 3);
    for i in 1..=4 {
        vault.save(&ser(&test_data(i)), ProtectionLevel::Medium).unwrap();
    }
    let vault = mutate_slot(vault, 3, 1, |bytes| bytes.truncate(32));
    assert_eq!(load_id(&vault), 3);
}

#[test]
fn test_vault_stress_cases_enumerated() {
    // slots after five saves: 0 = seq3, 1 = seq4, 2 = seq5
    let cases: [(&str, Vec<(usize, u8)>, Option<u32>); 8] = [
        ("latest_footer_crc_corrupt", vec![(2, 0)], Some(4)),
        ("latest_truncated", vec![(2, 1)], Some(4)),
        ("latest_header_only", vec![(2, 2)], Some(4)),
        ("two_latest_footer_crc_corrupt", vec![(2, 0), (1, 0)], Some(3)),
        ("latest_header_only_and_second_corrupt", vec![(2, 2), (1, 0)], Some(3)),
        ("all_footer_crc_corrupt", vec![(0, 0), (1, 0), (2, 0)], None),
        ("all_truncated", vec![(0, 3), (1, 3), (2, 3)], None),
        ("all_header_only", vec![(0, 2), (1, 2), (2, 2)], None),
    ];

    for (name, damage, expected) in cases {
        let mut vault = ReliableVault::new(MemoryBackend::new(3), 3);
        for id in 1..=5 {
            vault.save(&ser(&test_data(id)), ProtectionLevel::Medium).unwrap();
        }
        for (slot, kind) in damage {
            vault = mutate_slot(vault, 3, slot, |bytes| match kind {
                0 => corrupt_footer_crc(bytes),
                1 => bytes.truncate(12),
                2 => bytes.truncate(32),
                _ => bytes.truncate(8),
            });
        }
        match expected {
            Some(id) => assert_eq!(load_id(&vault), id, "{name}"),
            None => assert!(is_not_found(&vault.load()), "{name}"),
        }
    }
}

#[test]
fn test_phase1_value_range() {
    let data_class_cases = [
        ("empty_payload", 0usize, DataClass::Small),
        ("max_small_payload", SMALL_DATA_THRESHOLD_BYTES - 1, DataClass::Small),
        ("large_payload_boundary", SMALL_DATA_THRESHOLD_BYTES, DataClass::Large),
    ];
    for (name, payload_len, expected) in data_class_cases {
        assert_eq!(DataClass::from_payload_len(payload_len), expected, "{name}: DataClass mismatch");
    }

    let error_class_cases = [
        ("recoverable_crc", Error::CrcMismatch, ErrorClass::Recoverable),
        ("fatal_invalid_protection_level", Error::InvalidProtectionLevel, ErrorClass::Fatal),
        (
            "recoverable_not_found",
            Error::Io(std::io::Error::new(std::io::ErrorKind::NotFound, "missing")),
            ErrorClass::Recoverable,
        ),
    ];
    for (name, error, expected) in error_class_cases {
        assert_eq!(error.class(), expected, "{name}: error class mismatch");
    }
}

#[test]
fn test_phase1_ok_cases() {
    let small_data: TestData = (101, "small tmr payload".to_string());
    let mut vault = ReliableVault::new(MemoryBackend::new(3), 3);
    vault.save_small(&ser(&small_data)).unwrap();
    assert_eq!(de::<TestData>(&vault.load_small().unwrap()), small_data);

    let vault = mutate_slot(vault, 3, 1, |bytes| {
        bytes[TMR_HEADER_GROUP_BYTES + 5] ^= 0b0000_0010;
    });
    assert_eq!(de::<TestData>(&vault.load_small().unwrap()), small_data);
}

#[test]
fn test_phase1_error_cases() {
    let too_large: (Vec<u8>,) = (vec![0xEF; SMALL_DATA_THRESHOLD_BYTES + 512],);
    let mut large_vault = ReliableVault::new(MemoryBackend::new(3), 3);
    assert!(is_invalid_input(&large_vault.save_small(&ser(&too_large))));

    let mut large_only_vault = ReliableVault::new(MemoryBackend::new(3), 3);
    let large_case = build_large_case_data(90, 16 * 1024);
    large_only_vault.save(&ser(&large_case), ProtectionLevel::Medium).unwrap();
    assert!(is_not_found(&large_only_vault.load_small()));
}

#[test]
fn test_phase2_ok_cases() {
    let data = build_large_case_data(501, RS_DATA_BYTES_PER_SEGMENT + 2048);
    let serialized = ser(&data);
    let mut vault = ReliableVault::new(MemoryBackend::new(3), 3);
    vault.save_large(&serialized).unwrap();
    assert_eq!(de::<LargeCaseData>(&vault.load_large().unwrap()), data);

    let range_start = RS_DATA_BYTES_PER_SEGMENT.saturating_sub(64);
    let range_end = (RS_DATA_BYTES_PER_SEGMENT + 64).min(serialized.len());
    let partial = vault.load_large_range(range_start..range_end).unwrap();
    assert_eq!(partial, serialized[range_start..range_end].to_vec());

    let mut vault = mutate_slot(vault, 3, 1, |bytes| corrupt_rs_segment_shards(bytes, &[0, 1]));
    assert_eq!(de::<LargeCaseData>(&vault.load_large().unwrap()), data);

    let auto_data = build_large_case_data(502, RS_DATA_BYTES_PER_SEGMENT / 3);
    vault.save(&ser(&auto_data), ProtectionLevel::Medium).unwrap();
    assert_eq!(de::<LargeCaseData>(&vault.load().unwrap()), auto_data);
}

#[test]
fn test_phase2_error_cases() {
    let mut vault = ReliableVault::new(MemoryBackend::new(3), 3);
    let small: TestData = (1, "small".to_string());
    assert!(is_invalid_input(&vault.save_large(&ser(&small))));

    let mut vault = ReliableVault::new(MemoryBackend::new(3), 3);
    let data = build_large_case_data(503, RS_DATA_BYTES_PER_SEGMENT + 256);
    vault.save_large(&ser(&data)).unwrap();
    assert!(is_invalid_input(&vault.load_large_range(128..64)));

    let vault = mutate_slot(vault, 3, 1, |bytes| corrupt_rs_segment_shards(bytes, &[0, 1, 2]));
    assert!(is_not_found(&vault.load_large()));
    assert!(is_not_found(&vault.load_large_range(0..256)));
}

#[test]
fn test_phase3_value_range() {
    let cases = [("budget_zero", 0usize, 0usize, 1usize), ("budget_one", 1usize, 1usize, 0usize)];

    for (name, budget, expected_repaired, expected_budget_skipped) in cases {
        let data: TestData = (300, format!("phase3-{name}"));
        let mut vault = ReliableVault::new(MemoryBackend::new(3), 3);
        vault.save_small(&ser(&data)).unwrap();

        let (slot_index, original_bytes) = first_present_slot(vault.backend(), 3);
        let mut vault = mutate_slot(vault, 3, slot_index, |bytes| bytes[0] ^= 0b0000_0001);
        let corrupted_bytes = vault.backend().read_slot(slot_index).unwrap();

        let report = vault.scrub_with_budget(budget).unwrap();
        assert_eq!(report.scanned_slots, 3, "{name}");
        assert_eq!(report.repaired_slots, expected_repaired, "{name}");
        assert_eq!(report.budget_skipped_slots, expected_budget_skipped, "{name}");

        assert_eq!(de::<TestData>(&vault.load_small().unwrap()), data, "{name}");

        let current_bytes = vault.backend().read_slot(slot_index).unwrap();
        if expected_repaired == 0 {
            assert_eq!(current_bytes, corrupted_bytes, "{name}");
        } else {
            assert_eq!(current_bytes, original_bytes, "{name}");
        }
    }
}

#[test]
fn test_phase3_ok_cases() {
    let (name, num_slots, save_count, budget) = ("rotation_and_scrub", 5usize, 7u64, 1usize);
    let mut vault = ReliableVault::new(MemoryBackend::new(num_slots), num_slots);
    for id in 1..=save_count {
        vault.save_small(&ser(&(id as u32, format!("{name}-{id}")))).unwrap();
    }
    assert_eq!(de::<TestData>(&vault.load_small().unwrap()).0 as u64, save_count);

    let mut entries = collect_slot_sequences(vault.backend(), num_slots);
    entries.sort_by_key(|(_, sequence)| *sequence);
    let expected: Vec<u64> = ((save_count - num_slots as u64 + 1)..=save_count).collect();
    let actual: Vec<u64> = entries.iter().map(|(_, sequence)| *sequence).collect();
    assert_eq!(actual, expected);

    let (latest_slot_index, _) = *entries.last().unwrap();
    let original_latest_bytes = vault.backend().read_slot(latest_slot_index).unwrap();
    let mut vault = mutate_slot(vault, num_slots, latest_slot_index, |bytes| bytes[0] ^= 0b0000_0010);

    let report = vault.scrub_with_budget(budget).unwrap();
    assert_eq!(report.repaired_slots, 1);
    assert_eq!(vault.backend().read_slot(latest_slot_index).unwrap(), original_latest_bytes);
}

#[test]
fn test_phase3_error_cases() {
    let data: TestData = (401, "permission_denied-data".to_string());
    let mut warmup = ReliableVault::new(MemoryBackend::new(3), 3);
    warmup.save_small(&ser(&data)).unwrap();
    let (slot_index, _) = first_present_slot(warmup.backend(), 3);
    let warmup = mutate_slot(warmup, 3, slot_index, |bytes| bytes[0] ^= 0b0000_0001);

    let backend = WriteFailBackend { inner: warmup.into_backend(), fail_index: slot_index };
    let mut vault = ReliableVault::new(backend, 3);
    let result = vault.scrub_with_budget(1);
    assert!(
        matches!(result, Err(Error::Io(ref e)) if e.kind() == std::io::ErrorKind::PermissionDenied),
        "scrub error mismatch: {result:?}"
    );
}

#[test]
fn test_phase4_value_range() {
    let cases = [
        ("small_compression_disabled", CompressionPolicy::disabled(), true, false),
        ("small_compression_enabled", CompressionPolicy::enabled().with_large_enabled(false), true, true),
        ("large_compression_enabled", CompressionPolicy::enabled().with_small_enabled(false), false, true),
    ];

    for (name, policy, small, expected_compressed) in cases {
        let mut vault = ReliableVault::new(MemoryBackend::new(3), 3).with_compression_policy(policy);
        if small {
            let data: TestData = (501, "a".repeat(2048));
            vault.save_small(&ser(&data)).unwrap();
            assert_eq!(de::<TestData>(&vault.load_small().unwrap()), data, "{name}");
        } else {
            let data: LargeCaseData = (502, vec![0u8; RS_DATA_BYTES_PER_SEGMENT + 4096]);
            vault.save_large(&ser(&data)).unwrap();
            assert_eq!(de::<LargeCaseData>(&vault.load_large().unwrap()), data, "{name}");
        }
        let (_, slot_bytes) = first_present_slot(vault.backend(), 3);
        let slot = decode_slot_payload(&slot_bytes).unwrap();
        assert_eq!(is_compressed_payload(&slot.payload), expected_compressed, "{name}");
    }
}

#[test]
fn test_phase4_ok_cases() {
    let data: LargeCaseData = (601, vec![7u8; RS_DATA_BYTES_PER_SEGMENT + 8192]);
    let serialized = ser(&data);
    let mut vault =
        ReliableVault::new(MemoryBackend::new(3), 3).with_compression_policy(CompressionPolicy::enabled());
    vault.save_large(&serialized).unwrap();

    let range_start = RS_DATA_BYTES_PER_SEGMENT.saturating_sub(128);
    let range_end = (range_start + 512).min(serialized.len());
    let partial = vault.load_large_range(range_start..range_end).unwrap();
    assert_eq!(partial, serialized[range_start..range_end].to_vec());

    let small: TestData = (602, "x".repeat(1024));
    let config = BitFlipConfig::new(1, Some(7001), BitFlipTarget::FullFrame);
    let backend = MemoryBackend::new(3).with_bitflip_for_tests(config);
    let mut vault = ReliableVault::new(backend, 3).with_compression_policy(CompressionPolicy::enabled());
    vault.save_small(&ser(&small)).unwrap();
    assert_eq!(de::<TestData>(&vault.load_small().unwrap()), small);

    let mut vault = ReliableVault::new(MemoryBackend::new(3), 3).with_compression_policy(CompressionPolicy::enabled());
    vault.save_small(&ser(&(603u32, "tre-source".repeat(200)))).unwrap();
    let (slot_index, _) = first_present_slot(vault.backend(), 3);
    let mut vault = mutate_slot(vault, 3, slot_index, |bytes| bytes[0..32].fill(0));
    vault.save_small(&ser(&(604u32, "recovered".to_string()))).unwrap();
}

#[test]
fn test_phase4_error_cases() {
    for (name, mode) in [("all_slots_zeroed", 0u8), ("all_slots_header_corrupt", 1u8), ("all_slots_truncated", 2u8)] {
        let mut vault =
            ReliableVault::new(MemoryBackend::new(3), 3).with_compression_policy(CompressionPolicy::enabled());
        for id in 1..=3u32 {
            vault.save_small(&ser(&(id, format!("{name}-{id}")))).unwrap();
        }
        for slot in 0..3 {
            vault = mutate_slot(vault, 3, slot, |bytes| match mode {
                0 => bytes.fill(0),
                1 => {
                    let header_len = 32.min(bytes.len());
                    bytes[0..header_len].fill(0);
                }
                _ => bytes.truncate(8),
            });
        }
        assert!(is_not_found(&vault.load_small()), "{name}");
    }
}

#[test]
fn vault_save_then_load_gives_back_data() {
    let mut vault = ReliableVault::new(MemoryBackend::new(3), 3);
    let payload = b"exact bytes of a generation".to_vec();
    vault.save(&payload, ProtectionLevel::Low).unwrap();
    assert_eq!(vault.load().unwrap(), payload);
    assert!(is_not_found(&ReliableVault::new(MemoryBackend::new(3), 3).load()));
}

#[test]
fn vault_scrub_leaves_healthy_slots() {
    let mut vault = ReliableVault::new(MemoryBackend::new(4), 4);
    for i in 1..=2 {
        vault.save(&ser(&test_data(i)), ProtectionLevel::High).unwrap();
    }
    let report = vault.scrub().unwrap();
    assert_eq!(report.scanned_slots, 4);
    assert_eq!(report.healthy_slots, 2);
    assert_eq!(report.recoverable_error_slots, 2);
    assert_eq!(report.repaired_slots, 0);
    assert_eq!(load_id(&vault), 2);
}

#[test]
fn generation_target_from_reads_returns_the_first_fatal_read_error() {
    let header = TmrStrategy::encode_tmr(5, &[1, 2, 3]).unwrap()[..72].to_vec();
    let reads = vec![
        Ok(header.clone()),
        Err(Error::CrcMismatch),
        Err(Error::InvalidProtectionLevel),
        Err(Error::Io(std::io::Error::new(std::io::ErrorKind::Other, "device gone"))),
    ];
    assert!(matches!(generation_target_from_reads(reads), Err(Error::InvalidProtectionLevel)));

    let reads = vec![
        Err(Error::CrcMismatch),
        Ok(header),
        Err(Error::Io(std::io::Error::new(std::io::ErrorKind::NotFound, "no slot"))),
    ];
    // Recoverable read errors count as empty slots: next sequence 6, slot 6 % 3 = 0 is empty.
    assert_eq!(generation_target_from_reads(reads).unwrap(), (6, 0));
}
