use rtkit::healed::ecc::{decode, encode, EccError, EncodedBlock, ProtectionLevel};

#[test]
fn test_roundtrip_high() {
    let data = b"hello world";
    let level = ProtectionLevel::High;
    let encoded = encode(data, level).unwrap();
    let decoded = decode(&encoded).unwrap();
    assert_eq!(data, decoded.as_slice());
}

#[test]
fn test_roundtrip_medium() {
    let data = b"hello world!";
    let level = ProtectionLevel::Medium;
    let encoded = encode(data, level).unwrap();
    let decoded = decode(&encoded).unwrap();
    assert_eq!(data, decoded.as_slice());
}

#[test]
fn test_roundtrip_low() {
    let data = b"16 bytes data...";
    let level = ProtectionLevel::Low;
    let encoded = encode(data, level).unwrap();
    let decoded = decode(&encoded).unwrap();
    assert_eq!(data, decoded.as_slice());
}

#[test]
fn test_1bit_flip_correction_high() {
    let data = b"A";
    let level = ProtectionLevel::High;
    let mut encoded = encode(data, level).unwrap();
    if let EncodedBlock::High(ref mut val) = &mut encoded[0] {
        *val ^= 1 << 5;
    }
    let decoded = decode(&encoded).unwrap();
    assert_eq!(data, decoded.as_slice(), "Data should be corrected");
}

#[test]
fn test_2bit_flip_uncorrectable_high() {
    let data = b"B";
    let level = ProtectionLevel::High;
    let mut encoded = encode(data, level).unwrap();
    if let EncodedBlock::High(ref mut val) = &mut encoded[0] {
        *val ^= 1 << 3;
        *val ^= 1 << 6;
    }
    let result = decode(&encoded);
    assert!(matches!(result, Err(EccError::Uncorrectable)));
}

#[test]
fn test_invalid_length_error() {
    let data = b"12345";
    let result_medium = encode(data, ProtectionLevel::Medium);
    assert_eq!(result_medium, Err(EccError::InvalidLength));
    let result_low = encode(data, ProtectionLevel::Low);
    assert_eq!(result_low, Err(EccError::InvalidLength));
}

#[test]
fn ecc_every_single_bit_of_medium_and_low_words_is_corrected() {
    let data = b"abcdefgh";
    for level in [ProtectionLevel::Medium, ProtectionLevel::Low] {
        let encoded = encode(data, level).unwrap();
        for k in 0..encoded.len() {
            let bits = match encoded[k] {
                EncodedBlock::Medium(_) => 64,
                EncodedBlock::Low(_) => 128,
                EncodedBlock::High(_) => 8,
            };
            for bit in 0..bits {
                let mut damaged = encoded.clone();
                damaged[k] = match damaged[k] {
                    EncodedBlock::Medium(v) => EncodedBlock::Medium(v ^ (1u64 << bit)),
                    EncodedBlock::Low(v) => EncodedBlock::Low(v ^ (1u128 << bit)),
                    EncodedBlock::High(v) => EncodedBlock::High(v ^ (1u16 << bit)),
                };
                assert_eq!(decode(&damaged).unwrap(), data.to_vec(), "level {level:?} block {k} bit {bit}");
            }
        }
    }
}

#[test]
fn ecc_mixed_levels_are_inconsistent() {
    let mut blocks = encode(b"abcd", ProtectionLevel::High).unwrap();
    blocks.push(EncodedBlock::Medium(0));
    assert_eq!(decode(&blocks), Err(EccError::InconsistentLevel));
}

#[test]
fn ecc_empty_input_gives_no_blocks() {
    assert_eq!(encode(&[], ProtectionLevel::Low), Ok(Vec::new()));
    assert_eq!(decode(&[]), Ok(Vec::new()));
}

#[test]
fn ecc_high_blocks_keep_the_data_byte_low() {
    let encoded = encode(&[0x5A, 0x00], ProtectionLevel::High).unwrap();
    for (block, byte) in encoded.iter().zip([0x5Au8, 0x00]) {
        match block {
            EncodedBlock::High(v) => assert_eq!((*v & 0xFF) as u8, byte),
            _ => panic!("wrong level"),
        }
    }
}

#[test]
fn high_block_with_syndrome_past_the_data_bits_is_uncorrectable() {
    // Data byte 0 with parity 0xFF points past the 64 data bits.
    let result = decode(&[EncodedBlock::High(0xFF00)]);
    assert!(matches!(result, Err(EccError::Uncorrectable)));
}
