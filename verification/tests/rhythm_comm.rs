use std::f64::consts::PI;

use rtkit::rhythm::comm::{SyncListenerState, SyncSenderState};
use rtkit::rhythm::fixed_math::{BpmLimitParam, PhaseU16};
use rtkit::rhythm::generator::{RhythmGenerator, SyncState};

fn check_case(label: &str, condition: bool, message: &str) {
    assert!(condition, "[{label}] {message}");
}

#[test]
fn value_range_sender_publish_on_phase_grid_cases() {
    // (label, bpm, beat_div, steps, expected_interval_ms, expect_subbeat_phase)
    let cases = [
        ("90bpm_quarter_step_publish_each_4step", 90u16, 4u32, 8usize, 166u32, true),
        ("120bpm_full_step_publish_every_step", 120, 1, 4, 500, false),
    ];

    for (label, bpm, beat_div, steps, expected_interval_ms, expect_subbeat_phase) in cases {
        let mut sender = SyncSenderState::new(bpm, 12, beat_div, BpmLimitParam::new(60, 120));
        let mut now_ms = 1_000_u64;
        let mut sent_messages = Vec::new();

        for _ in 0..steps {
            let step = sender.step(now_ms);
            check_case(label, step.interval_ms == expected_interval_ms, "interval_ms mismatch");
            if let Some(msg) = step.sent_message {
                sent_messages.push(msg);
            }
            now_ms = now_ms.saturating_add(step.interval_ms as u64);
        }

        check_case(label, !sent_messages.is_empty(), "no message sent");

        let div = beat_div.clamp(1, 4);
        let valid_phases: Vec<u16> = (0..div).map(|slot| ((slot as u64 * 65_536_u64) / div as u64) as u16).collect();

        let mut prev_beat_count: Option<u32> = None;
        for msg in &sent_messages {
            check_case(label, valid_phases.contains(&msg.phase), "phase off the grid");
            if let Some(prev) = prev_beat_count {
                check_case(label, msg.beat_count >= prev, "beat_count went backwards");
            }
            prev_beat_count = Some(msg.beat_count);
        }

        if expect_subbeat_phase {
            check_case(label, sent_messages.iter().any(|msg| msg.phase != 0), "no sub-beat phase sent");
            check_case(
                label,
                sent_messages.len() > sender.rhythm.beat_count as usize,
                "fewer sends than beats with sub-beat division",
            );
        } else {
            check_case(label, sent_messages.iter().all(|msg| msg.phase == 0), "non-zero phase sent");
        }
    }
}

#[test]
fn normal_sync_with_comm_step_cases() {
    // (label, sender_bpm, sender_beat_div, steps, expected_bpm_min, expected_bpm_max)
    let cases = [
        ("90bpm_sender_quarter_step_listener_locks_to_90", 90u16, 4u32, 64usize, 86u16, 94u16),
        ("120bpm_sender_full_step_listener_locks_to_120", 120, 1, 16, 118, 120),
    ];

    for (label, sender_bpm, sender_beat_div, steps, expected_bpm_min, expected_bpm_max) in cases {
        let bpm_limit = BpmLimitParam::new(60, 120);
        let mut sender = SyncSenderState::new(sender_bpm, 12, sender_beat_div, bpm_limit);
        let mut listener = SyncListenerState::new(120, 12, bpm_limit);

        let mut now_ms = 10_000_u64;
        let mut received_count = 0_usize;

        for _ in 0..steps {
            let send_step = sender.step(now_ms);
            now_ms = now_ms.saturating_add(send_step.interval_ms as u64);
            // loopback delivery: what was sent in this step is what the listener receives
            let recv_step = listener.step(send_step.interval_ms, now_ms, send_step.sent_message);
            if recv_step.received_message.is_some() {
                received_count += 1;
            }
        }

        let local = &listener.rhythm;
        let bpm_now = local.current_bpm.to_int_round();
        check_case(label, received_count >= 2, "too few messages received");
        check_case(label, local.sync_state == SyncState::Locked, "not locked");
        assert!(
            (expected_bpm_min..=expected_bpm_max).contains(&bpm_now),
            "[{label}] bpm_now={bpm_now} expected={expected_bpm_min}..={expected_bpm_max}"
        );
    }
}

#[test]
fn practical_loss_and_delay_jitter_cases() {
    struct Case {
        label: &'static str,
        sender_bpm: u16,
        sender_beat_div: u32,
        receiver_start_bpm: u16,
        steps: usize,
        drop_every_nth_recv: usize,
        extra_delay_jitter_ms: &'static [u32],
        min_synced_messages: usize,
        expected_bpm_min: u16,
        expected_bpm_max: u16,
    }

    let cases = [
        Case {
            label: "drop_every_3rd_recv_90bpm",
            sender_bpm: 90,
            sender_beat_div: 1,
            receiver_start_bpm: 120,
            steps: 40,
            drop_every_nth_recv: 3,
            extra_delay_jitter_ms: &[0, 6, 12, 3, 15],
            min_synced_messages: 20,
            expected_bpm_min: 88,
            expected_bpm_max: 92,
        },
        Case {
            label: "drop_every_2nd_recv_120bpm",
            sender_bpm: 120,
            sender_beat_div: 1,
            receiver_start_bpm: 90,
            steps: 30,
            drop_every_nth_recv: 2,
            extra_delay_jitter_ms: &[0, 10, 4, 18],
            min_synced_messages: 12,
            expected_bpm_min: 118,
            expected_bpm_max: 120,
        },
    ];

    for case in &cases {
        let bpm_limit = BpmLimitParam::new(60, 120);
        let mut sender = SyncSenderState::new(case.sender_bpm, 12, case.sender_beat_div, bpm_limit);
        let mut local = RhythmGenerator::from_int_bpm(0, case.receiver_start_bpm, 12);

        let mut now_ms = 50_000_u64;
        let mut recv_count = 0_usize;
        let mut synced_count = 0_usize;

        for step_idx in 0..case.steps {
            let send_step = sender.step(now_ms);
            now_ms = now_ms.saturating_add(send_step.interval_ms as u64);
            local.update(send_step.interval_ms, &bpm_limit);

            if let Some(msg) = send_step.sent_message {
                recv_count += 1;
                let should_drop = case.drop_every_nth_recv > 0 && recv_count % case.drop_every_nth_recv == 0;
                if should_drop {
                    continue;
                }
                let jitter = if case.extra_delay_jitter_ms.is_empty() {
                    0_u64
                } else {
                    case.extra_delay_jitter_ms[step_idx % case.extra_delay_jitter_ms.len()] as u64
                };
                local.sync(msg, now_ms.saturating_add(jitter), &bpm_limit);
                synced_count += 1;
            }
        }

        let bpm_now = local.current_bpm.to_int_round();
        check_case(case.label, recv_count >= case.min_synced_messages, "too few messages received");
        check_case(case.label, synced_count >= case.min_synced_messages, "too few messages used");
        check_case(case.label, local.sync_state == SyncState::Locked, "lock lost");
        check_case(
            case.label,
            (case.expected_bpm_min..=case.expected_bpm_max).contains(&bpm_now),
            "bpm out of the expected range",
        );
    }
}

#[test]
fn sin_lut_accuracy_full_range() {
    for i in 0u16..256 {
        let phase = PhaseU16(i << 8);
        let expected = ((i as f64 / 256.0) * 2.0 * PI).sin();
        let got = (phase.sin().0 as f32 / 32767.0) as f64;
        assert!((got - expected).abs() < 0.002, "LUT[{i}]: got={got:.5}, expected={expected:.5}");
    }
}

#[test]
fn sin_to_f32_stays_in_range() {
    for i in 0u16..256 {
        let v = PhaseU16(i << 8).sin().0 as f32 / 32767.0;
        assert!((-1.0001..=1.0001).contains(&v), "SinQ15 out of range at i={i}: {v}");
    }
}
