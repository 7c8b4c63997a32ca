use rtkit::rhythm::consts::RHYTHM_MESSAGE_WIRE_SIZE;
use rtkit::rhythm::fixed_math::BpmQ8;
use rtkit::rhythm::message::RhythmMessage;

#[test]
fn wire_bytes_roundtrip() {
    let cases: &[(&str, RhythmMessage)] = &[
        ("全ゼロ（デフォルト）", RhythmMessage::default()),
        ("120 BPM / 標準", RhythmMessage::new(1_000, 1, 0, BpmQ8::from_int(120))),
        ("90 BPM / 標準", RhythmMessage::new(2_000, 10, 32768, BpmQ8::from_int(90))),
        ("60 BPM / 標準", RhythmMessage::new(3_000, 100, 65535, BpmQ8::from_int(60))),
        ("タイムスタンプ最大値", RhythmMessage::new(u64::MAX, 0, 0, BpmQ8::from_int(120))),
        ("beat_count 最大値", RhythmMessage::new(0, u32::MAX, 0, BpmQ8::from_int(90))),
        ("phase 最大値", RhythmMessage::new(0, 0, u16::MAX, BpmQ8::from_int(60))),
        (
            "全フィールド境界値",
            RhythmMessage::new(u64::MAX, u32::MAX, u16::MAX, BpmQ8::from_int(120)),
        ),
    ];
    for (label, msg) in cases {
        let buf = msg.to_wire_bytes();
        let restored = RhythmMessage::from_wire_slice(&buf)
            .unwrap_or_else(|| panic!("[{label}] from_wire_slice が None を返した"));
        assert_eq!(restored, *msg, "[{label}] 往復後の値が一致しない");
    }
}

#[test]
fn wire_bytes_field_layout() {
    let cases: &[(&str, RhythmMessage, u64, u32, u16, u16)] = &[
        (
            "通常値",
            RhythmMessage::new(0x0102_0304_0506_0708, 0xDEAD_BEEF, 0xABCD, BpmQ8::from_int(120)),
            0x0102_0304_0506_0708,
            0xDEAD_BEEF,
            0xABCD,
            120,
        ),
        ("全ゼロ", RhythmMessage::default(), 0, 0, 0, 0),
    ];
    for (label, msg, ts, bc, ph, bpm_int) in cases {
        let buf = msg.to_wire_bytes();
        assert_eq!(
            u64::from_le_bytes(buf[RhythmMessage::WIRE_TIMESTAMP_OFFSET..][..8].try_into().unwrap()),
            *ts,
            "[{label}] timestamp_ms",
        );
        assert_eq!(
            u32::from_le_bytes(buf[RhythmMessage::WIRE_BEAT_COUNT_OFFSET..][..4].try_into().unwrap()),
            *bc,
            "[{label}] beat_count",
        );
        assert_eq!(
            u16::from_le_bytes(buf[RhythmMessage::WIRE_PHASE_OFFSET..][..2].try_into().unwrap()),
            *ph,
            "[{label}] phase",
        );
        assert_eq!(
            u16::from_le_bytes(buf[RhythmMessage::WIRE_BPM_OFFSET..][..2].try_into().unwrap()),
            *bpm_int,
            "[{label}] bpm",
        );
    }
}

#[test]
fn wire_bytes_short_buffer_returns_none() {
    for len in 0..RHYTHM_MESSAGE_WIRE_SIZE {
        let short = vec![0u8; len];
        assert!(
            RhythmMessage::from_wire_slice(&short).is_none(),
            "長さ {len} のバッファで None が返らなかった"
        );
    }
}

#[test]
fn wire_bytes_fractional_bpm_is_rounded() {
    // 90.5 BPM is sent as 91 and read back as 91.0 BPM.
    let msg = RhythmMessage::new(5, 6, 7, BpmQ8(23168));
    let restored = RhythmMessage::from_wire_slice(&msg.to_wire_bytes()).unwrap();
    assert_eq!(restored.bpm, BpmQ8::from_int(91));
    assert_eq!(restored.timestamp_ms, 5);
    assert_eq!(restored.beat_count, 6);
    assert_eq!(restored.phase, 7);
}

#[test]
fn wire_bytes_longer_buffer_reads_prefix() {
    let msg = RhythmMessage::new(42, 7, 1234, BpmQ8::from_int(100));
    let mut buf = msg.to_wire_bytes().to_vec();
    buf.extend_from_slice(&[0xFF; 4]);
    assert_eq!(RhythmMessage::from_wire_slice(&buf), Some(msg));
}
