use vstd::prelude::*;

use crate::rhythm::fixed_math::{clamp_int, BpmLimitParam};
use crate::rhythm::generator::{GenModel, RhythmGenerator};
use crate::rhythm::message::RhythmMessage;

verus! {

/// Shortest send interval in milliseconds.
pub const MIN_SEND_INTERVAL_MS: u32 = 20;

/// Largest number of sends per beat.
pub const MAX_BEAT_DIV: u32 = 4;

/// Default multicast port.
pub const DEFAULT_MULTICAST_PORT: u16 = 12345;

/// The beat subdivision actually used: `beat_div` clamped into `[1, 4]`.
pub open spec fn spec_beat_div(beat_div: u32) -> u32 {
    clamp_int(beat_div as int, 1, 4) as u32
}

/// Send interval: one beat (rounded) divided by the clamped subdivision, at
/// least `MIN_SEND_INTERVAL_MS`; `MIN_SEND_INTERVAL_MS` for a zero BPM.
pub open spec fn spec_send_interval_ms(bpm_q8: u16, beat_div: u32) -> u32 {
    if bpm_q8 == 0 {
        20
    } else {
        let beat_ms = (15360000 + bpm_q8 / 2) / (bpm_q8 as int);
        let interval = beat_ms / (spec_beat_div(beat_div) as int);
        if interval < 20 { 20 } else { interval as u32 }
    }
}

/// Send interval in milliseconds for `beat_div` sends per beat.
pub fn select_send_interval_ms(bpm_q8: u16, beat_div: u32) -> (r: u32)
    ensures
        r == spec_send_interval_ms(bpm_q8, beat_div),
        r >= MIN_SEND_INTERVAL_MS,
{
    let div: u32 = if beat_div < 1 { 1 } else if beat_div > MAX_BEAT_DIV { MAX_BEAT_DIV } else { beat_div };
    if bpm_q8 == 0 {
        return MIN_SEND_INTERVAL_MS;
    }
    let beat_ms: u64 = (15_360_000 + bpm_q8 as u64 / 2) / bpm_q8 as u64;
    let interval: u64 = beat_ms / div as u64;
    if interval < MIN_SEND_INTERVAL_MS as u64 {
        MIN_SEND_INTERVAL_MS
    } else {
        interval as u32
    }
}

/// Index of the sub-beat slot containing `phase` when a beat has `beat_div` slots.
pub fn phase_slot_index(phase: u16, beat_div: u32) -> (r: u32)
    ensures
        r == ((phase * beat_div) / 65536) % 4294967296,
{
    assert(phase * beat_div <= 65535 * 4294967295) by (nonlinear_arith)
        requires phase <= 65535, beat_div <= 4294967295;
    let prod: u64 = phase as u64 * beat_div as u64;
    assert(prod >> 16u64 == prod / 65536) by (bit_vector);
    ((prod >> 16) % 4294967296) as u32
}

/// Phase at the start of sub-beat slot `slot` (wrapping at one cycle).
pub fn phase_for_slot(slot: u32, beat_div: u32) -> (r: u16)
    requires
        beat_div > 0,
    ensures
        r == ((slot * 65536) / (beat_div as int)) % 65536,
{
    let v: u64 = (slot as u64 * 65_536) / beat_div as u64;
    (v % 65536) as u16
}

/// Outcome of one sender step.
#[derive(Debug, Clone, Copy, PartialEq, Eq)]
pub struct SenderStepResult {
    pub interval_ms: u32,
    pub sent_message: Option<RhythmMessage>,
}

/// Outcome of one listener step.
#[derive(Debug, Clone, Copy, PartialEq, Eq)]
pub struct ListenerStepResult {
    pub received_message: Option<RhythmMessage>,
    pub beat_changed: bool,
}

/// `beat * div + slot`, saturating at `u64::MAX` on each step.
pub open spec fn spec_grid_slot(beat_count: u64, div: u32, slot_in_beat: u32) -> u64 {
    let m = if beat_count * div > u64::MAX { u64::MAX as int } else { beat_count * div };
    if m + slot_in_beat > u64::MAX { u64::MAX } else { (m + slot_in_beat) as u64 }
}

fn grid_slot(beat_count: u64, div: u32, slot_in_beat: u32) -> (r: u64)
    ensures
        r == spec_grid_slot(beat_count, div, slot_in_beat),
{
    let m: u64 = match beat_count.checked_mul(div as u64) {
        Some(v) => v,
        None => u64::MAX,
    };
    m.saturating_add(slot_in_beat as u64)
}

/// Decision core of a multicast sender: it runs a generator at the send
/// interval and emits a message whenever a new sub-beat slot is entered.
pub struct SyncSenderState {
    pub rhythm: RhythmGenerator,
    pub bpm_limit_param: BpmLimitParam,
    pub beat_div: u32,
    pub last_sent_slot: u64,
}

impl SyncSenderState {
    /// A sender starting at phase 0 and `bpm`; the subdivision is clamped into `[1, 4]`.
    pub fn new(bpm: u16, coupling_divisor: u16, beat_div: u32, bpm_limit_param: BpmLimitParam) -> (r: SyncSenderState)
        ensures
            r.beat_div == spec_beat_div(beat_div),
            r.bpm_limit_param == bpm_limit_param.spec_sanitize(),
            r.rhythm@ == RhythmGenerator::new_model(0, crate::rhythm::fixed_math::spec_bpm_from_int(bpm), coupling_divisor),
            r.last_sent_slot == spec_grid_slot(0, spec_beat_div(beat_div), 0),
    {
        let div: u32 = if beat_div < 1 { 1 } else if beat_div > MAX_BEAT_DIV { MAX_BEAT_DIV } else { beat_div };
        let rhythm = RhythmGenerator::from_int_bpm(0, bpm, coupling_divisor);
        let slot = phase_slot_index(0, div);
        let current_slot = grid_slot(0, div, slot);
        SyncSenderState {
            rhythm,
            bpm_limit_param: bpm_limit_param.sanitize(),
            beat_div: div,
            last_sent_slot: current_slot,
        }
    }

    /// Advances by one send interval and returns the message to publish, if
    /// a new slot was entered; its phase is the start of the slot.
    pub fn step(&mut self, now_ms: u64) -> (r: SenderStepResult)
        requires
            old(self).beat_div >= 1,
        ensures
            ({
                let g0 = old(self).rhythm@;
                let interval = spec_send_interval_ms(g0.current_bpm, old(self).beat_div);
                let g1 = g0.update(interval, old(self).bpm_limit_param);
                let slot_in_beat = (((g1.phase * old(self).beat_div) / 65536) % 4294967296) as u32;
                let slot = spec_grid_slot(g1.beat_count, old(self).beat_div, slot_in_beat);
                &&& r.interval_ms == interval
                &&& final(self).rhythm@ == g1
                &&& final(self).beat_div == old(self).beat_div
                &&& final(self).bpm_limit_param == old(self).bpm_limit_param
                &&& if slot != old(self).last_sent_slot {
                    &&& final(self).last_sent_slot == slot
                    &&& r.sent_message == Some(RhythmMessage {
                        timestamp_ms: now_ms,
                        beat_count: crate::rhythm::generator::cap_u32(g1.beat_count as int),
                        phase: (((slot_in_beat * 65536) / (old(self).beat_div as int)) % 65536) as u16,
                        bpm: crate::rhythm::fixed_math::BpmQ8(g1.current_bpm),
                    })
                } else {
                    &&& final(self).last_sent_slot == old(self).last_sent_slot
                    &&& r.sent_message is None
                }
            }),
    {
        let interval_ms = select_send_interval_ms(self.rhythm.current_bpm_raw(), self.beat_div);
        let limit = self.bpm_limit_param;
        self.rhythm.update(interval_ms, &limit);
        let slot_in_beat = phase_slot_index(self.rhythm.phase_raw(), self.beat_div);
        let current_slot = grid_slot(self.rhythm.beat_count_value(), self.beat_div, slot_in_beat);
        let mut sent_message = None;
        if current_slot != self.last_sent_slot {
            self.last_sent_slot = current_slot;
            let mut msg = self.rhythm.to_message(now_ms);
            msg.phase = phase_for_slot(slot_in_beat, self.beat_div);
            sent_message = Some(msg);
        }
        SenderStepResult { interval_ms, sent_message }
    }
}

/// Decision core of a multicast listener: free running between receptions,
/// synchronising on each received message and reporting new beats.
pub struct SyncListenerState {
    pub rhythm: RhythmGenerator,
    pub bpm_limit_param: BpmLimitParam,
    pub last_reported_beat: u64,
}

impl SyncListenerState {
    /// A listener starting at phase 0 and `bpm`.
    pub fn new(bpm: u16, coupling_divisor: u16, bpm_limit_param: BpmLimitParam) -> (r: SyncListenerState)
        ensures
            r.bpm_limit_param == bpm_limit_param.spec_sanitize(),
            r.rhythm@ == RhythmGenerator::new_model(0, crate::rhythm::fixed_math::spec_bpm_from_int(bpm), coupling_divisor),
            r.last_reported_beat == 0,
    {
        SyncListenerState {
            rhythm: RhythmGenerator::from_int_bpm(0, bpm, coupling_divisor),
            bpm_limit_param: bpm_limit_param.sanitize(),
            last_reported_beat: 0,
        }
    }

    /// Free runs for `dt_ms` (at least 1 ms), synchronises to `received` if
    /// a message arrived, and reports whether the beat count changed since the
    /// last report.
    pub fn step(&mut self, dt_ms: u32, now_ms: u64, received: Option<RhythmMessage>) -> (r: ListenerStepResult)
        ensures
            ({
                let dt = if dt_ms == 0 { 1u32 } else { dt_ms };
                let g1 = old(self).rhythm@.update(dt, old(self).bpm_limit_param);
                let g2 = match received {
                    Some(m) => g1.sync(m, now_ms, old(self).bpm_limit_param),
                    None => g1,
                };
                &&& final(self).rhythm@ == g2
                &&& final(self).bpm_limit_param == old(self).bpm_limit_param
                &&& r.received_message == received
                &&& r.beat_changed == (g2.beat_count != old(self).last_reported_beat)
                &&& final(self).last_reported_beat == g2.beat_count
            }),
    {
        let dt: u32 = if dt_ms == 0 { 1 } else { dt_ms };
        let limit = self.bpm_limit_param;
        self.rhythm.update(dt, &limit);
        if let Some(msg) = received {
            self.rhythm.sync(msg, now_ms, &limit);
        }
        let beat = self.rhythm.beat_count_value();
        let beat_changed = if beat != self.last_reported_beat {
            self.last_reported_beat = beat;
            true
        } else {
            false
        };
        ListenerStepResult { received_message: received, beat_changed }
    }
}

} // verus!
