use rtkit::healed::rs::{
    RsError, RsStrategy, RS_DATA_BYTES_PER_SEGMENT, RS_ENCODED_SEGMENT_BYTES,
    RS_RECORD_HEADER_BYTES, RS_SEGMENT_HEADER_BYTES, RS_SHARD_BYTES, RS_SHARD_CRC_TABLE_BYTES,
};

fn corrupt_shard_bit(
    bytes: &mut [u8],
    segment_index: usize,
    shard_index: usize,
    byte_offset: usize,
    bit: u8,
) {
    let segment_offset = RS_RECORD_HEADER_BYTES + segment_index * RS_ENCODED_SEGMENT_BYTES;
    let shard_data_start = segment_offset + RS_SEGMENT_HEADER_BYTES + RS_SHARD_CRC_TABLE_BYTES;
    let target = shard_data_start + shard_index * RS_SHARD_BYTES + byte_offset;
    bytes[target] ^= 1u8 << (bit % 8);
}

fn assert_roundtrip_case(name: &str, sequence: u64, payload: &[u8], expected_segments: u32) {
    let encoded = RsStrategy::encode_record(sequence, payload)
        .unwrap_or_else(|error| panic!("{name}: encode failed: {error:?}"));
    let decoded = RsStrategy::decode_record(&encoded)
        .unwrap_or_else(|error| panic!("{name}: decode failed: {error:?}"));

    assert_eq!(decoded.sequence, sequence, "{name}: sequence mismatch");
    assert_eq!(decoded.payload, payload, "{name}: payload mismatch");
    assert_eq!(decoded.segment_count, expected_segments, "{name}: segment count mismatch");
}

#[test]
fn test_rs_value_range() {
    let cases = [
        ("empty_payload", 1u64, Vec::new(), 0u32),
        ("single_byte", 2u64, vec![0xAB], 1u32),
        ("segment_exact", 3u64, vec![0x11; RS_DATA_BYTES_PER_SEGMENT], 1u32),
        ("segment_plus_one", 4u64, vec![0x22; RS_DATA_BYTES_PER_SEGMENT + 1], 2u32),
    ];

    for (name, sequence, payload, expected_segments) in cases {
        assert_roundtrip_case(name, sequence, &payload, expected_segments);
    }
}

#[test]
fn test_rs_ok_cases() {
    let payload = (0..(RS_DATA_BYTES_PER_SEGMENT + 777))
        .map(|index| (index % 251) as u8)
        .collect::<Vec<_>>();

    let cases = [
        ("single_shard_corruption", 0usize, 0usize, 9usize, 1u8),
        ("two_shard_corruption", 0usize, 1usize, 15usize, 2u8),
        ("two_shard_corruption_parity", 0usize, 8usize, 31usize, 3u8),
    ];

    for (name, segment_index, shard_index, byte_offset, bit) in cases {
        let mut encoded = RsStrategy::encode_record(31, &payload)
            .unwrap_or_else(|error| panic!("{name}: encode failed: {error:?}"));

        corrupt_shard_bit(&mut encoded, segment_index, shard_index, byte_offset, bit);
        if name.starts_with("two_shard") {
            corrupt_shard_bit(&mut encoded, segment_index, shard_index + 1, byte_offset + 1, bit + 1);
        }

        let decoded = RsStrategy::decode_record(&encoded)
            .unwrap_or_else(|error| panic!("{name}: decode failed: {error:?}"));
        assert_eq!(decoded.payload, payload, "{name}: payload mismatch");
    }
}

#[test]
fn test_rs_error_cases() {
    let payload = vec![0x33; RS_DATA_BYTES_PER_SEGMENT + 256];
    let encoded = RsStrategy::encode_record(41, &payload).unwrap();

    let mut invalid_magic = encoded.clone();
    invalid_magic[0] ^= 0x01;

    let mut too_many_erasures = encoded.clone();
    corrupt_shard_bit(&mut too_many_erasures, 0, 0, 0, 1);
    corrupt_shard_bit(&mut too_many_erasures, 0, 1, 1, 2);
    corrupt_shard_bit(&mut too_many_erasures, 0, 2, 2, 3);

    let cases = [
        ("slot_too_short", encoded[..12].to_vec()),
        ("invalid_magic", invalid_magic),
        ("too_many_erasures", too_many_erasures),
    ];

    for (name, bytes) in cases {
        let error = match RsStrategy::decode_record(&bytes) {
            Ok(_) => panic!("{name}: expected decode error"),
            Err(error) => error,
        };

        match name {
            "slot_too_short" => {
                assert!(matches!(error, RsError::SlotTooShort), "{name}: {error:?}");
            }
            "invalid_magic" => {
                assert!(matches!(error, RsError::InvalidRecordMagic), "{name}: {error:?}");
            }
            "too_many_erasures" => {
                assert!(
                    matches!(error, RsError::TooManyShardErasures { .. }),
                    "{name}: {error:?}"
                );
            }
            _ => unreachable!(),
        }
    }
}

#[test]
fn test_rs_inspect_value_range() {
    let cases = [
        ("empty", 51u64, Vec::new(), 0u32),
        ("multi_segment", 52u64, vec![0x7Cu8; RS_DATA_BYTES_PER_SEGMENT + 123], 2u32),
    ];

    for (name, sequence, payload, expected_segments) in cases {
        let encoded = RsStrategy::encode_record(sequence, &payload)
            .unwrap_or_else(|error| panic!("{name}: encode failed: {error:?}"));
        let info = RsStrategy::inspect_record(&encoded)
            .unwrap_or_else(|error| panic!("{name}: inspect failed: {error:?}"));

        assert_eq!(info.sequence, sequence, "{name}: sequence mismatch");
        assert_eq!(info.payload_len, payload.len(), "{name}: payload_len mismatch");
        assert_eq!(info.segment_count, expected_segments, "{name}: segment_count mismatch");
    }
}

#[test]
fn test_rs_range_ok_cases() {
    let payload = (0..(RS_DATA_BYTES_PER_SEGMENT * 2 + 321))
        .map(|index| (index % 251) as u8)
        .collect::<Vec<_>>();
    let serialized = payload.clone();

    let mut encoded = RsStrategy::encode_record(61, &serialized).unwrap();
    corrupt_shard_bit(&mut encoded, 1, 0, 0, 1);
    corrupt_shard_bit(&mut encoded, 1, 1, 1, 2);
    corrupt_shard_bit(&mut encoded, 1, 2, 2, 3);

    let cases = [
        (
            "first_segment_only",
            32usize..(RS_DATA_BYTES_PER_SEGMENT - 16),
            32usize..(RS_DATA_BYTES_PER_SEGMENT - 16),
        ),
        (
            "cross_segment",
            (RS_DATA_BYTES_PER_SEGMENT - 32)..(RS_DATA_BYTES_PER_SEGMENT + 32),
            (RS_DATA_BYTES_PER_SEGMENT - 32)..(RS_DATA_BYTES_PER_SEGMENT + 32),
        ),
    ];

    for (name, range, expected_range) in cases {
        let result = if name == "cross_segment" {
            match RsStrategy::decode_payload_range(&encoded, range.clone()) {
                Ok(_) => panic!("{name}: expected decode error"),
                Err(error) => {
                    assert!(
                        matches!(error, RsError::TooManyShardErasures { .. }),
                        "{name}: {error:?}"
                    );
                    continue;
                }
            }
        } else {
            RsStrategy::decode_payload_range(&encoded, range.clone())
                .unwrap_or_else(|error| panic!("{name}: decode range failed: {error:?}"))
        };

        assert_eq!(result, serialized[expected_range].to_vec(), "{name}: range payload mismatch");
    }
}

#[test]
fn test_rs_range_error_cases() {
    let payload = vec![0x3Au8; RS_DATA_BYTES_PER_SEGMENT + 8];
    let encoded = RsStrategy::encode_record(71, &payload).unwrap();

    let cases = [
        ("invalid_range_order", 100usize..10usize),
        ("empty_at_end", payload.len()..payload.len()),
        ("start_over_payload", payload.len() + 10..payload.len() + 20),
    ];

    for (name, range) in cases {
        let result = RsStrategy::decode_payload_range(&encoded, range);
        match name {
            "invalid_range_order" => {
                let error = match result {
                    Ok(_) => panic!("{name}: expected decode error"),
                    Err(error) => error,
                };
                assert!(matches!(error, RsError::InvalidPayloadRange { .. }), "{name}: {error:?}");
            }
            "empty_at_end" | "start_over_payload" => {
                let decoded = result
                    .unwrap_or_else(|error| panic!("{name}: unexpected decode error: {error:?}"));
                assert!(decoded.is_empty(), "{name}: expected empty payload");
            }
            _ => unreachable!(),
        }
    }
}

#[test]
fn rs_record_length_matches_segment_count() {
    let payload = vec![0x5Au8; RS_DATA_BYTES_PER_SEGMENT * 2 + 1];
    let encoded = RsStrategy::encode_record(9, &payload).unwrap();
    assert_eq!(encoded.len(), RS_RECORD_HEADER_BYTES + 3 * RS_ENCODED_SEGMENT_BYTES);
    assert_eq!(RsStrategy::peek_sequence(&encoded), Some(9));
    assert_eq!(RsStrategy::peek_sequence(&encoded[..4]), None);
}

#[test]
fn rs_parity_shard_is_not_a_copy_of_data() {
    let payload: Vec<u8> = (0..RS_DATA_BYTES_PER_SEGMENT).map(|i| (i % 7) as u8 + 1).collect();
    let encoded = RsStrategy::encode_record(3, &payload).unwrap();
    let shard_start = RS_RECORD_HEADER_BYTES + RS_SEGMENT_HEADER_BYTES + RS_SHARD_CRC_TABLE_BYTES;
    let first_parity = &encoded[shard_start + 8 * RS_SHARD_BYTES..shard_start + 9 * RS_SHARD_BYTES];
    let first_data = &encoded[shard_start..shard_start + RS_SHARD_BYTES];
    assert_ne!(first_parity, first_data);
}

#[test]
fn record_range_read_gives_the_payload_slice() {
    let payload: Vec<u8> = (0..70_000u32).map(|i| (i % 251) as u8).collect();
    let encoded = RsStrategy::encode_record(5, &payload).unwrap();
    for (start, end) in [(0usize, 10usize), (32_760, 32_780), (65_530, 70_000), (69_990, 80_000), (75_000, 90_000), (100, 100)] {
        let got = RsStrategy::decode_payload_range(&encoded, start..end).unwrap();
        let lo = start.min(payload.len());
        let hi = end.min(payload.len());
        assert_eq!(got, payload[lo..hi].to_vec(), "range {start}..{end}");
    }
}
