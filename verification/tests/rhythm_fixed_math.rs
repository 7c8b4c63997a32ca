use rtkit::rhythm::fixed_math::{phase_advance_sub16, BpmQ8, PhaseU16};

#[test]
fn bpm_q8_int_conversion() {
    let cases: [(u16, u16); 3] = [(60, 15360), (90, 23040), (120, 30720)];
    for (bpm, expected_raw) in cases {
        let q8 = BpmQ8::from_int(bpm);
        assert_eq!(q8.raw(), expected_raw, "BPM={} raw", bpm);
        assert_eq!(q8.to_int_floor(), bpm, "BPM={} floor", bpm);
        assert_eq!(q8.to_int_round(), bpm, "BPM={} round", bpm);
    }
}

#[test]
fn bpm_q8_from_interval_ms() {
    let cases: [(&str, u32, u16); 3] = [
        ("120 BPM = 500 ms", 500, 120),
        ("60 BPM = 1000 ms", 1000, 60),
        ("90 BPM ≈ 667 ms", 667, 90),
    ];
    for (label, interval_ms, expected_bpm) in cases {
        let q8 = BpmQ8::from_interval_ms(interval_ms);
        assert_eq!(q8.to_int_round(), expected_bpm, "[{}] interval_ms={} → BPM", label, interval_ms);
    }
}

#[test]
fn bpm_q8_clamp() {
    let min = BpmQ8(BpmQ8::MIN_RAW);
    let max = BpmQ8(BpmQ8::MAX_RAW);
    let cases = [
        ("0 → MIN", BpmQ8(0), min),
        ("MAX_U16 → MAX", BpmQ8(u16::MAX), max),
        ("90 BPM → 変化なし", BpmQ8::from_int(90), BpmQ8::from_int(90)),
        ("MIN そのまま", min, min),
        ("MAX そのまま", max, max),
    ];
    for (label, input, expected) in cases {
        assert_eq!(input.clamp_to_range(), expected, "[{}]", label);
    }
}

#[test]
fn bpm_q8_blend_toward() {
    let min = BpmQ8(BpmQ8::MIN_RAW);
    let max = BpmQ8(BpmQ8::MAX_RAW);
    let cases = [
        (
            "60→120 by 1/10",
            BpmQ8::from_int(60),
            BpmQ8::from_int(120),
            10,
            BpmQ8(BpmQ8::from_int(60).0 + (BpmQ8::from_int(120).0 - BpmQ8::from_int(60).0) / 10),
        ),
        ("divisor=1 → target を即時返す", BpmQ8::from_int(60), BpmQ8::from_int(120), 1, BpmQ8::from_int(120)),
        ("MAX を超える目標 → MAX に止まる", max, BpmQ8(u16::MAX), 2, max),
        ("MIN を下回る目標 → MIN に止まる", min, BpmQ8(0), 2, min),
    ];
    for (label, start, target, divisor, expected) in cases {
        assert_eq!(start.blend_toward(target, divisor), expected, "[{}]", label);
    }
}

#[test]
fn phase_u16_advance() {
    let cases: [(&str, u16, u32, u16); 3] = [
        ("120 BPM 500 ms = 1 周", 120, 500, 0),
        ("90 BPM 2000 ms = 3 周", 90, 2000, 0),
        ("60 BPM 500 ms = 半周", 60, 500, 32768),
    ];
    for (label, bpm, dt_ms, expected) in cases {
        let delta = PhaseU16::advance(BpmQ8::from_int(bpm), dt_ms);
        assert_eq!(delta.0, expected, "[{}]", label);
    }
}

#[test]
fn phase_u16_signed_diff() {
    let cases: [(&str, u16, u16, i16); 3] = [
        ("正方向", 1000, 500, 500),
        ("負方向", 500, 1000, -500),
        ("ラップして最短経路（正）", 100, 65336, 300),
    ];
    for (label, a, b, expected) in cases {
        assert_eq!(PhaseU16(a).signed_diff(PhaseU16(b)), expected, "[{}]", label);
    }
}

#[test]
fn phase_u16_wrapping_add_overflow() {
    let cases: [(&str, u16, u16, u16); 4] = [
        ("0xFFFE + 2 → 0", 0xFFFE, 2, 0),
        ("0xFFFF + 1 → 0", 0xFFFF, 1, 0),
        ("0 + 0 → 0", 0, 0, 0),
        ("0 + 65535 → 65535", 0, 65535, 65535),
    ];
    for (label, base, delta, expected) in cases {
        assert_eq!(PhaseU16(base).wrapping_add(PhaseU16(delta)).0, expected, "[{}]", label);
    }
}

#[test]
fn sin_lut_key_values() {
    let cases: [(&str, u16, i16); 4] = [
        ("sin 0 = 0", 0, 0),
        ("sin π/2 ≈ 1.0", 16384, 32767),
        ("sin π = 0", 32768, 0),
        ("sin 3π/2 ≈ -1.0", 49152, -32767),
    ];
    for (label, phase, expected_raw) in cases {
        assert_eq!(PhaseU16(phase).sin().raw(), expected_raw, "[{}]", label);
    }
}

#[test]
fn phase_advance_sub16_no_drift() {
    let cases: [(&str, u16, u32, u32); 2] = [
        ("120 BPM 10ms×6000 = 60s", 120, 10, 6000),
        ("90 BPM 10ms×6000 = 60s", 90, 10, 6000),
    ];
    for (label, bpm, dt_ms, steps) in cases {
        let bpm_q8 = BpmQ8::from_int(bpm).raw();
        let mut accum: u64 = 0;
        for _ in 0..steps {
            accum = accum.wrapping_add(phase_advance_sub16(bpm_q8, dt_ms));
        }
        let phase_u16 = (accum >> 16) as u16;
        assert!(phase_u16 < 10 || phase_u16 > 65526, "[{}] ドリフト発生: phase_u16={phase_u16}", label);
    }
}

#[test]
fn sin_lut_half_turn_antisymmetry() {
    for i in 0u16..128 {
        let a = PhaseU16(i << 8).sin().raw();
        let b = PhaseU16((i + 128) << 8).sin().raw();
        assert_eq!(a, -b, "entry {i}");
    }
}

#[test]
fn blend_moves_strictly_toward_target() {
    let start = BpmQ8::from_int(100);
    let target = BpmQ8::from_int(101);
    let next = start.blend_toward(target, 1000);
    assert_eq!(next.0, start.0 + 1);
    let back = target.blend_toward(start, 1000);
    assert_eq!(back.0, target.0 - 1);
}

#[test]
fn bpm_q8_blend_equal_values_are_clamped() {
    assert_eq!(BpmQ8(0).blend_toward(BpmQ8(0), 2), BpmQ8(15360));
    assert_eq!(BpmQ8(40000).blend_toward(BpmQ8(40000), 4), BpmQ8(30720));
    assert_eq!(BpmQ8(20000).blend_toward(BpmQ8(20000), 4), BpmQ8(20000));
}
