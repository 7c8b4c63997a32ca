use rtkit::bitflip::{apply_bit_flip, BitFlipConfig, BitFlipError, BitFlipTarget, BitFlipWriter};

fn diff_bits(lhs: &[u8], rhs: &[u8]) -> usize {
    assert_eq!(lhs.len(), rhs.len(), "length mismatch in diff_bits");
    lhs.iter().zip(rhs.iter()).map(|(l, r)| (l ^ r).count_ones() as usize).sum()
}

fn assert_ok_flip_case(name: &str, src: &[u8], config: BitFlipConfig, expected_flip_bits: usize) {
    let mut out = src.to_vec();
    apply_bit_flip(&mut out, config).unwrap_or_else(|e| panic!("{name}: unexpected error: {e:?}"));
    assert_eq!(diff_bits(src, &out), expected_flip_bits, "{name}: flipped bit count mismatch");
}

fn assert_out_of_range_case(name: &str, src: &[u8], config: BitFlipConfig, expected_available_bits: usize) {
    let mut out = src.to_vec();
    let err = match apply_bit_flip(&mut out, config) {
        Ok(_) => panic!("{name}: expected out-of-range error"),
        Err(e) => e,
    };
    assert_eq!(
        err,
        BitFlipError::FlipBitsOutOfRange { flip_bits: config.flip_bits, available_bits: expected_available_bits },
        "{name}: unexpected error"
    );
    assert_eq!(out, src, "{name}: buffer must stay untouched");
}

#[test]
fn test_bitflip_value_range() {
    let src = vec![0x55u8; 5];
    let max_bits = src.len() * 8;
    let ok_cases = [
        ("flip_zero", BitFlipConfig::new(0, Some(11), BitFlipTarget::FullFrame), 0usize),
        ("flip_one", BitFlipConfig::new(1, Some(11), BitFlipTarget::FullFrame), 1usize),
        ("flip_max", BitFlipConfig::new(max_bits, Some(11), BitFlipTarget::FullFrame), max_bits),
    ];
    for (name, config, expected_flip_bits) in ok_cases {
        assert_ok_flip_case(name, &src, config, expected_flip_bits);
    }
    let err_cases = [(
        "flip_over_max",
        BitFlipConfig::new(max_bits + 1, Some(11), BitFlipTarget::FullFrame),
        max_bits,
    )];
    for (name, config, expected_available_bits) in err_cases {
        assert_out_of_range_case(name, &src, config, expected_available_bits);
    }
}

#[test]
fn test_bitflip_ok_cases() {
    let full_src = vec![0xABu8; 32];
    let frame_src = vec![0xCDu8; 80];

    let flip_cases = [
        ("full_frame_flip", &full_src[..], BitFlipConfig::new(5, Some(1234), BitFlipTarget::FullFrame)),
        ("header_only_flip", &frame_src[..], BitFlipConfig::new(3, Some(2222), BitFlipTarget::HeaderOnly)),
        ("payload_only_flip", &frame_src[..], BitFlipConfig::new(7, Some(3333), BitFlipTarget::PayloadOnly)),
    ];
    for (name, src, config) in flip_cases {
        assert_ok_flip_case(name, src, config, config.flip_bits);
    }

    let reproducible_cases = [
        ("seed_reproducible_full", &full_src[..], BitFlipConfig::new(6, Some(9001), BitFlipTarget::FullFrame)),
        ("seed_reproducible_payload", &frame_src[..], BitFlipConfig::new(8, Some(9002), BitFlipTarget::PayloadOnly)),
    ];
    for (name, src, config) in reproducible_cases {
        let mut a = src.to_vec();
        let mut b = src.to_vec();
        apply_bit_flip(&mut a, config).unwrap_or_else(|e| panic!("{name}: first apply failed: {e:?}"));
        apply_bit_flip(&mut b, config).unwrap_or_else(|e| panic!("{name}: second apply failed: {e:?}"));
        assert_eq!(a, b, "{name}: seed must make output reproducible");
    }

    let writer_cases = [(
        "writer_full_frame",
        &full_src[..],
        BitFlipConfig::new(4, Some(41), BitFlipTarget::FullFrame),
    )];
    for (name, src, config) in writer_cases {
        let mut writer = BitFlipWriter::new(Vec::<u8>::new(), config);
        writer.write_bytes(src);
        let (_inner, out) = writer.finish().unwrap_or_else(|e| panic!("{name}: finish failed: {e:?}"));
        assert_eq!(out.len(), src.len(), "{name}: output length must be equal");
        assert_eq!(diff_bits(src, &out), config.flip_bits, "{name}: writer flipped bit count mismatch");
    }
}

#[test]
fn test_bitflip_error_cases() {
    let short_frame = vec![0xEEu8; 16];
    let tiny_frame = vec![0x12u8; 30];
    let out_of_range_cases = [
        ("over_full_frame", &short_frame[..], BitFlipConfig::new(129, Some(7), BitFlipTarget::FullFrame), 128usize),
        ("payload_not_present", &tiny_frame[..], BitFlipConfig::new(1, Some(7), BitFlipTarget::PayloadOnly), 0usize),
    ];
    for (name, src, config, expected_available_bits) in out_of_range_cases {
        assert_out_of_range_case(name, src, config, expected_available_bits);
    }

    let invalid_target_cases = [("invalid_target_string", "unknown_target")];
    for (name, raw_target) in invalid_target_cases {
        let err = match BitFlipTarget::try_from_str(raw_target) {
            Ok(_) => panic!("{name}: expected invalid target error"),
            Err(e) => e,
        };
        assert_eq!(err, BitFlipError::InvalidTarget(raw_target.to_string()), "{name}: invalid target error mismatch");
    }
}

#[test]
fn bitflip_targets_parse() {
    assert_eq!(BitFlipTarget::try_from_str("header_only"), Ok(BitFlipTarget::HeaderOnly));
    assert_eq!(BitFlipTarget::try_from_str("payload_only"), Ok(BitFlipTarget::PayloadOnly));
    assert_eq!(BitFlipTarget::try_from_str("full_frame"), Ok(BitFlipTarget::FullFrame));
}

#[test]
fn bitflip_stays_inside_target_region() {
    let src = vec![0u8; 80];
    let mut out = src.clone();
    apply_bit_flip(&mut out, BitFlipConfig::new(40, Some(5), BitFlipTarget::PayloadOnly)).unwrap();
    assert!(out[..32].iter().all(|b| *b == 0), "header must be untouched");
    assert!(out[72..].iter().all(|b| *b == 0), "footer must be untouched");
    assert_eq!(diff_bits(&src, &out), 40);

    let mut hdr = src.clone();
    apply_bit_flip(&mut hdr, BitFlipConfig::new(256, Some(5), BitFlipTarget::HeaderOnly)).unwrap();
    assert!(hdr[..32].iter().all(|b| *b == 0xFF), "all header bits flipped");
    assert!(hdr[32..].iter().all(|b| *b == 0));
}

#[test]
fn bitflip_disabled_is_identity() {
    let src = vec![0x3Cu8; 12];
    let mut out = src.clone();
    apply_bit_flip(&mut out, BitFlipConfig::disabled()).unwrap();
    assert_eq!(out, src);
    assert_eq!(BitFlipConfig::default(), BitFlipConfig::disabled());
}

#[test]
fn bitflip_unseeded_flips_requested_count() {
    let src = vec![0x00u8; 16];
    let mut out = src.clone();
    apply_bit_flip(&mut out, BitFlipConfig::new(9, None, BitFlipTarget::FullFrame)).unwrap();
    assert_eq!(diff_bits(&src, &out), 9);
}

#[test]
fn writer_finish_matches_apply_bit_flip_with_seed() {
    let cfg = BitFlipConfig::new(4, Some(41), BitFlipTarget::FullFrame);
    let mut w = BitFlipWriter::new(Vec::<u8>::new(), cfg);
    w.write_bytes(&[0xABu8; 32]);
    let mut expected = vec![0xABu8; 32];
    apply_bit_flip(&mut expected, cfg).unwrap();
    let (_inner, out) = w.finish().unwrap();
    assert_eq!(out, expected);
    assert_eq!(diff_bits(&[0xABu8; 32], &out), 4);
}
