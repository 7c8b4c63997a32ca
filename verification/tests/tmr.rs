use rtkit::healed::tmr::{TmrError, TmrStrategy, TMR_HEADER_GROUP_BYTES};

fn count_differing_bits(lhs: &[u8], rhs: &[u8]) -> usize {
    assert_eq!(lhs.len(), rhs.len(), "length mismatch");
    lhs.iter().zip(rhs.iter()).map(|(l, r)| (l ^ r).count_ones() as usize).sum()
}

fn corrupt_bit(bytes: &mut [u8], offset: usize, bit: u8) {
    bytes[offset] ^= 1u8 << bit;
}

#[test]
fn test_tmr_value_range() {
    let cases = [
        ("empty_payload", 7u64, Vec::new()),
        ("single_byte", 8u64, vec![0x5A]),
        ("small_payload", 9u64, vec![0xAB; 128]),
    ];
    for (name, sequence, payload) in cases {
        let encoded = TmrStrategy::encode_tmr(sequence, &payload)
            .unwrap_or_else(|e| panic!("{name}: encode failed: {e:?}"));
        let decoded = TmrStrategy::decode_tmr_with_vote(&encoded)
            .unwrap_or_else(|e| panic!("{name}: decode failed: {e:?}"));
        assert_eq!(decoded.sequence, sequence, "{name}: sequence mismatch");
        assert_eq!(decoded.payload, payload, "{name}: payload mismatch");
    }
}

#[test]
fn test_tmr_ok_cases() {
    let cases = [
        ("header_one_bit_corruption", 21u64, vec![0x11; 64], 3usize, 0u8),
        ("payload_one_bit_corruption", 22u64, vec![0x22; 96], TMR_HEADER_GROUP_BYTES + 8, 2u8),
        ("payload_mbu_single_replica", 23u64, vec![0x33; 128], TMR_HEADER_GROUP_BYTES + 40, 4u8),
    ];
    for (name, sequence, payload, offset, bit) in cases {
        let mut encoded = TmrStrategy::encode_tmr(sequence, &payload)
            .unwrap_or_else(|e| panic!("{name}: encode failed: {e:?}"));
        corrupt_bit(&mut encoded, offset, bit % 8);
        let decoded = TmrStrategy::decode_tmr_with_vote(&encoded)
            .unwrap_or_else(|e| panic!("{name}: decode failed: {e:?}"));
        assert_eq!(decoded.sequence, sequence, "{name}: sequence mismatch");
        assert_eq!(decoded.payload, payload, "{name}: payload mismatch");
    }
}

#[test]
fn test_tmr_error_cases() {
    let payload = vec![0x44; 48];
    let encoded = TmrStrategy::encode_tmr(31, &payload).unwrap();

    let mut invalid_length = encoded.clone();
    invalid_length.pop();

    let mut checksum_break = encoded.clone();
    let payload_start = TMR_HEADER_GROUP_BYTES;
    let second_replica_payload_start = payload_start + payload.len();
    corrupt_bit(&mut checksum_break, payload_start, 0);
    corrupt_bit(&mut checksum_break, second_replica_payload_start, 0);

    let cases = [
        ("slot_too_short", encoded[..16].to_vec(), TmrError::SlotTooShort),
        ("invalid_replica_length", invalid_length, TmrError::InvalidReplicaLength),
        ("checksum_mismatch", checksum_break, TmrError::ChecksumMismatch),
    ];
    for (name, bytes, expected) in cases {
        let error = match TmrStrategy::decode_tmr_with_vote(&bytes) {
            Ok(_) => panic!("{name}: expected decode error"),
            Err(error) => error,
        };
        assert_eq!(error, expected, "{name}: unexpected error");
    }
}

#[test]
fn test_tmr_majority_vote_diff_bits() {
    let payload = vec![0x77; 32];
    let encoded = TmrStrategy::encode_tmr(41, &payload).unwrap();
    let decoded = TmrStrategy::decode_tmr_with_vote(&encoded).unwrap();
    assert_eq!(count_differing_bits(&decoded.payload, &payload), 0);
}

#[test]
fn tmr_layout_and_peek() {
    let encoded = TmrStrategy::encode_tmr(0x0102_0304_0506_0708, &[1, 2, 3]).unwrap();
    assert_eq!(encoded.len(), 72 + 9);
    assert_eq!(&encoded[0..4], b"TMR1");
    assert_eq!(&encoded[4..8], &1u32.to_le_bytes());
    assert_eq!(&encoded[8..16], &0x0102_0304_0506_0708u64.to_le_bytes());
    assert_eq!(&encoded[16..20], &3u32.to_le_bytes());
    assert_eq!(&encoded[24..48], &encoded[0..24]);
    assert_eq!(&encoded[72..], &[1, 2, 3, 1, 2, 3, 1, 2, 3]);
    assert_eq!(TmrStrategy::peek_sequence(&encoded[..72]), Some(0x0102_0304_0506_0708));
    assert_eq!(TmrStrategy::peek_sequence(&encoded[..71]), None);
}

#[test]
fn tmr_whole_replica_corruption_is_masked() {
    let payload: Vec<u8> = (0..40).collect();
    let mut encoded = TmrStrategy::encode_tmr(5, &payload).unwrap();
    for b in &mut encoded[24..48] {
        *b = 0xFF;
    }
    for b in &mut encoded[72 + 40..72 + 80] {
        *b ^= 0xA5;
    }
    let decoded = TmrStrategy::decode_tmr_with_vote(&encoded).unwrap();
    assert_eq!(decoded.sequence, 5);
    assert_eq!(decoded.payload, payload);
}

#[test]
fn tmr_bad_magic_and_version() {
    let mut encoded = TmrStrategy::encode_tmr(1, &[9]).unwrap();
    for k in 0..3 {
        encoded[24 * k] = b'X';
    }
    assert_eq!(TmrStrategy::decode_tmr_with_vote(&encoded), Err(TmrError::InvalidMagic));
    let mut encoded = TmrStrategy::encode_tmr(1, &[9]).unwrap();
    for k in 0..3 {
        encoded[24 * k + 4] = 2;
    }
    assert_eq!(TmrStrategy::decode_tmr_with_vote(&encoded), Err(TmrError::UnsupportedVersion(2)));
}

#[test]
fn tmr_header_carries_crc32c() {
    // The catalogue check value of CRC-32/ISCSI over "123456789" is 0xE3069283.
    let encoded = TmrStrategy::encode_tmr(1, b"123456789").unwrap();
    assert_eq!(&encoded[20..24], &0xE306_9283u32.to_le_bytes());
}

#[test]
fn tmr_votes_bit_by_bit_across_two_corrupted_copies() {
    let payload: Vec<u8> = (0u8..16).collect();
    let mut encoded = TmrStrategy::encode_tmr(9, &payload).unwrap();
    let n = payload.len();
    // The same payload byte corrupted in two replicas, in different bits.
    corrupt_bit(&mut encoded, 72 + 3, 0);
    corrupt_bit(&mut encoded, 72 + n + 3, 5);
    // The same header byte corrupted in two copies, in different bits.
    corrupt_bit(&mut encoded, 10, 1);
    corrupt_bit(&mut encoded, 24 + 10, 7);
    let decoded = TmrStrategy::decode_tmr_with_vote(&encoded).unwrap();
    assert_eq!(decoded.sequence, 9);
    assert_eq!(decoded.payload, payload);
}
