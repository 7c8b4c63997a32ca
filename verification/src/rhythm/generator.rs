use vstd::prelude::*;
use vstd::arithmetic::power2::pow2;

use crate::rhythm::fixed_math::{
    clamp_int, phase_advance_sub16, phase_advance_u16, spec_bpm_from_int,
    spec_bpm_from_interval_ms, spec_blend, spec_phase_delta, spec_phase_delta_sub16,
    spec_signed_diff, BpmLimitParam, BpmQ8, PhaseU16,
};
use crate::rhythm::message::RhythmMessage;

verus! {

/// Number of pulse intervals kept for the BPM estimate.
pub const PULSE_INTERVAL_HISTORY_SIZE: usize = 8;

/// Q0.8 representation of 1.0 used by the moving average.
pub const EMA_Q8_ONE: u32 = 256;

// ─────────────────────────────────────────
//  Parameters and states
// ─────────────────────────────────────────

/// Parameters of pulse-only synchronisation.
#[derive(Debug, Clone, Copy, PartialEq, Eq, Structural)]
pub struct PulseSyncParam {
    /// Missing beats after which a locked generator falls back to `WaitSecondPoint`.
    pub missing_cycle_threshold: u8,
    /// Weight of the newest observation in the BPM moving average (Q0.8).
    pub bpm_ema_alpha_q8: u8,
}

impl PulseSyncParam {
    /// Both fields at least 1.
    pub open spec fn is_sane(self) -> bool {
        self.missing_cycle_threshold >= 1 && self.bpm_ema_alpha_q8 >= 1
    }

    /// Replaces zero fields by 1.
    pub open spec fn spec_sanitize(self) -> PulseSyncParam {
        PulseSyncParam {
            missing_cycle_threshold: if self.missing_cycle_threshold == 0 { 1 } else { self.missing_cycle_threshold },
            bpm_ema_alpha_q8: if self.bpm_ema_alpha_q8 == 0 { 1 } else { self.bpm_ema_alpha_q8 },
        }
    }

    /// Plain constructor.
    pub fn new(missing_cycle_threshold: u8, bpm_ema_alpha_q8: u8) -> (r: PulseSyncParam)
        ensures
            r == (PulseSyncParam { missing_cycle_threshold, bpm_ema_alpha_q8 }),
    {
        PulseSyncParam { missing_cycle_threshold, bpm_ema_alpha_q8 }
    }

    /// The default: a 4-beat timeout and a weight of 96/256.
    pub fn default_param() -> (r: PulseSyncParam)
        ensures
            r == (PulseSyncParam { missing_cycle_threshold: 4, bpm_ema_alpha_q8: 96 }),
    {
        PulseSyncParam { missing_cycle_threshold: 4, bpm_ema_alpha_q8: 96 }
    }

    /// Normalises to `missing_cycle_threshold >= 1` and `bpm_ema_alpha_q8 >= 1`.
    pub fn sanitize(self) -> (r: PulseSyncParam)
        ensures
            r == self.spec_sanitize(),
            r.is_sane(),
            self.is_sane() ==> r == self,
    {
        let missing_cycle_threshold = if self.missing_cycle_threshold == 0 {
            1
        } else {
            self.missing_cycle_threshold
        };
        let bpm_ema_alpha_q8 = if self.bpm_ema_alpha_q8 == 0 {
            1
        } else {
            self.bpm_ema_alpha_q8
        };
        PulseSyncParam { missing_cycle_threshold, bpm_ema_alpha_q8 }
    }
}

impl Default for PulseSyncParam {
    fn default() -> (r: PulseSyncParam)
        ensures
            r == (PulseSyncParam { missing_cycle_threshold: 4, bpm_ema_alpha_q8: 96 }),
    {
        PulseSyncParam::default_param()
    }
}

/// Synchronisation state of a generator.
#[derive(Debug, Clone, Copy, PartialEq, Eq, Structural)]
pub enum SyncState {
    /// Free running.
    Idle,
    /// One observation seen, waiting for a second one.
    WaitSecondPoint,
    /// Two observations seen, BPM established.
    Locked,
}

// ─────────────────────────────────────────
//  Helpers
// ─────────────────────────────────────────

/// `min(v, u32::MAX)`.
pub open spec fn cap_u32(v: int) -> u32 {
    if v > u32::MAX { u32::MAX } else { v as u32 }
}

/// Expected beat interval in milliseconds for a Q8.8 BPM (rounded).
pub open spec fn spec_expected_interval_ms(bpm_raw: u16) -> u64 {
    let r: int = if bpm_raw == 0 { 1 } else { bpm_raw as int };
    ((15360000 + r / 2) / r) as u64
}

/// Expected beat interval in milliseconds for `bpm` (rounded), treating 0 as 1.
pub fn expected_interval_ms_from_bpm(bpm: BpmQ8) -> (r: u64)
    ensures
        r == spec_expected_interval_ms(bpm.0),
{
    let raw_q8: u64 = if bpm.0 == 0 { 1 } else { bpm.0 as u64 };
    (15_360_000 + raw_q8 / 2) / raw_q8
}

/// BPM observed between two (timestamp, beat count) points, with the beat
/// count difference taken modulo 2^32.
pub open spec fn spec_observed_bpm(prev_ts: u64, prev_bc: u32, cur_ts: u64, cur_bc: u32) -> Option<u16> {
    let beat_delta = ((cur_bc - prev_bc) % 4294967296) as int;
    if cur_ts <= prev_ts || beat_delta == 0 {
        None
    } else {
        let interval = (cur_ts - prev_ts) as int;
        let q = (15360000 * beat_delta + interval / 2) / interval;
        Some(clamp_int(q, 256, 65535) as u16)
    }
}

/// BPM observed between two (timestamp, beat count) points; `None` when
/// time does not advance or no beat elapsed.
pub fn observed_bpm_from_points(prev_ts_ms: u64, prev_beat_count: u32, current_ts_ms: u64, current_beat_count: u32) -> (r: Option<BpmQ8>)
    ensures
        r == (match spec_observed_bpm(prev_ts_ms, prev_beat_count, current_ts_ms, current_beat_count) {
            Some(v) => Some(BpmQ8(v)),
            None => None,
        }),
{
    if current_ts_ms <= prev_ts_ms {
        return None;
    }
    let beat_delta: u32 = current_beat_count.wrapping_sub(prev_beat_count);
    if beat_delta == 0 {
        return None;
    }
    let interval_ms: u64 = current_ts_ms - prev_ts_ms;
    let numerator: u128 = 15_360_000u128 * beat_delta as u128;
    let q: u128 = (numerator + interval_ms as u128 / 2) / interval_ms as u128;
    let raw: u16 = if q < 256 {
        256
    } else if q > 65535 {
        65535
    } else {
        q as u16
    };
    Some(BpmQ8(raw))
}

/// Whether `bpm` is inside the sanitised limit.
pub fn is_bpm_in_primary_range(bpm: BpmQ8, limit: &BpmLimitParam) -> (r: bool)
    ensures
        r == (limit.lo_raw() <= bpm.0 <= limit.hi_raw()),
{
    limit.contains_q8(bpm)
}

/// Delay from `ts` to `now` in ms, saturating at 0 below and at `u32::MAX` above.
pub open spec fn spec_delay(ts: u64, now: u64) -> u32 {
    if now <= ts { 0 } else { cap_u32(now - ts) }
}

fn delay_ms(ts: u64, now: u64) -> (r: u32)
    ensures
        r == spec_delay(ts, now),
{
    if now <= ts {
        0
    } else {
        let d = now - ts;
        if d > u32::MAX as u64 { u32::MAX } else { d as u32 }
    }
}

/// The remote phase advanced by the transport delay.
pub open spec fn spec_compensated_remote_phase(msg: RhythmMessage, now_ms: u64) -> u16 {
    ((msg.phase + spec_phase_delta(msg.bpm.0, spec_delay(msg.timestamp_ms, now_ms)) % 65536) % 65536) as u16
}

/// The remote phase of `msg` advanced by the delay between its timestamp and `now_ms`.
pub fn compensated_remote_phase(msg: RhythmMessage, now_ms: u64) -> (r: u16)
    ensures
        r == spec_compensated_remote_phase(msg, now_ms),
{
    let delay = delay_ms(msg.timestamp_ms, now_ms);
    PhaseU16(msg.phase).wrapping_add(PhaseU16::advance(msg.bpm, delay)).raw()
}

/// The phase reached since a pulse at `bpm`.
pub open spec fn spec_compensated_pulse_phase(pulse_ts_ms: u64, now_ms: u64, bpm_raw: u16) -> u16 {
    (spec_phase_delta(bpm_raw, spec_delay(pulse_ts_ms, now_ms)) % 65536) as u16
}

/// Phase elapsed since the pulse at `pulse_ts_ms`, at `bpm`.
pub fn compensated_pulse_phase(pulse_ts_ms: u64, now_ms: u64, bpm: BpmQ8) -> (r: u16)
    ensures
        r == spec_compensated_pulse_phase(pulse_ts_ms, now_ms, bpm.0),
{
    let delay = delay_ms(pulse_ts_ms, now_ms);
    phase_advance_u16(bpm.0, delay)
}

/// `|signed_diff(candidate, current)|`.
pub open spec fn quarter_distance(candidate: u16, current: u16) -> int {
    let d = spec_signed_diff(candidate, current);
    if d < 0 { -d } else { d }
}

/// The candidate `remote + k * 16384` for `k` in `0..4`.
pub open spec fn quarter_candidate(remote: u16, k: int) -> u16 {
    ((remote + k * 16384) % 65536) as u16
}

/// The best candidate among the first `k` quarter offsets (first one wins ties).
pub open spec fn nearest_among(current: u16, remote: u16, k: nat) -> u16
    decreases k,
{
    if k <= 1 {
        quarter_candidate(remote, 0)
    } else {
        let prev = nearest_among(current, remote, (k - 1) as nat);
        let cand = quarter_candidate(remote, k - 1);
        if quarter_distance(cand, current) < quarter_distance(prev, current) { cand } else { prev }
    }
}

/// Among `remote + {0, 1/4, 1/2, 3/4}` cycles, the phase nearest to `current_phase`.
pub fn nearest_quarter_phase(current_phase: u16, remote_phase: u16) -> (r: u16)
    ensures
        r == nearest_among(current_phase, remote_phase, 4),
        exists|k: int| 0 <= k < 4 && r == quarter_candidate(remote_phase, k),
        forall|k: int| 0 <= k < 4 ==> quarter_distance(r, current_phase) <= quarter_distance(#[trigger] quarter_candidate(remote_phase, k), current_phase),
{
    let offsets: [u16; 4] = [0, 16384, 32768, 49152];
    let mut best: u16 = remote_phase;
    let mut best_abs: i32 = i32::MAX;
    let mut i: usize = 0;
    while i < 4
        invariant
            0 <= i <= 4,
            offsets@ == seq![0u16, 16384, 32768, 49152],
            i == 0 ==> best_abs == i32::MAX,
            i > 0 ==> best == nearest_among(current_phase, remote_phase, i as nat),
            i > 0 ==> best_abs == quarter_distance(best, current_phase),
            i > 0 ==> exists|k: int| 0 <= k < i && best == quarter_candidate(remote_phase, k),
            forall|k: int| 0 <= k < i ==> quarter_distance(best, current_phase) <= quarter_distance(#[trigger] quarter_candidate(remote_phase, k), current_phase),
        decreases 4 - i,
    {
        let candidate = remote_phase.wrapping_add(offsets[i]);
        assert(candidate == quarter_candidate(remote_phase, i as int));
        let d = PhaseU16(candidate).signed_diff(PhaseU16(current_phase)) as i32;
        let abs: i32 = if d < 0 { -d } else { d };
        if abs < best_abs {
            best_abs = abs;
            best = candidate;
        }
        i += 1;
    }
    best
}

/// Halving (rounded up) until at most `hi`.
pub open spec fn fold_down(raw: nat, hi: nat) -> nat
    decreases raw,
{
    if raw > hi && hi >= 1 { fold_down((raw + 1) / 2, hi) } else { raw }
}

/// Doubling until at least `lo`.
pub open spec fn fold_up(raw: nat, lo: nat) -> nat
    decreases (if raw >= lo { 0 } else { lo - raw }),
{
    if raw == 0 || raw >= lo { raw } else { fold_up(raw * 2, lo) }
}

/// A BPM folded by factors of two into the sanitised limit.
pub open spec fn spec_normalize(bpm_raw: u16, limit: BpmLimitParam) -> u16 {
    let lo = limit.lo_raw() as nat;
    let hi = limit.hi_raw() as nat;
    if bpm_raw == 0 {
        lo as u16
    } else {
        clamp_int((fold_up(fold_down(bpm_raw as nat, hi), lo) % 65536) as int, lo as int, hi as int) as u16
    }
}

proof fn lemma_fold_down_bounds(raw: nat, hi: nat)
    requires
        hi >= 1,
        raw >= 1,
    ensures
        1 <= fold_down(raw, hi) <= hi || (raw <= hi && fold_down(raw, hi) == raw),
        fold_down(raw, hi) <= hi,
        fold_down(raw, hi) >= 1,
    decreases raw,
{
    if raw > hi {
        lemma_fold_down_bounds((raw + 1) / 2, hi);
    }
}

proof fn lemma_fold_up_bounds(raw: nat, lo: nat)
    requires
        raw >= 1,
    ensures
        fold_up(raw, lo) >= lo,
        raw < lo ==> fold_up(raw, lo) < 2 * lo,
        raw >= lo ==> fold_up(raw, lo) == raw,
    decreases (if raw >= lo { 0 } else { lo - raw }),
{
    if raw < lo {
        lemma_fold_up_bounds(raw * 2, lo);
    }
}

/// Folds a BPM by factors of two into the sanitised limit (a tempo twice
/// too fast is taken as its half), then clamps into it; 0 gives the lower end.
pub fn normalize_bpm_to_primary_range(bpm: BpmQ8, limit: &BpmLimitParam) -> (r: BpmQ8)
    ensures
        r.0 == spec_normalize(bpm.0, *limit),
        limit.lo_raw() <= r.0 <= limit.hi_raw(),
        limit.lo_raw() <= bpm.0 <= limit.hi_raw() ==> r == bpm,
{
    let lim = limit.sanitize();
    let min: u32 = lim.min_q8().0 as u32;
    let max: u32 = lim.max_q8().0 as u32;
    assert(lim.lo_raw() == limit.lo_raw() && lim.hi_raw() == limit.hi_raw());
    let mut raw: u32 = bpm.0 as u32;
    if raw == 0 {
        return lim.min_q8();
    }
    assert(256 <= min <= max <= 65280);
    while raw > max
        invariant
            1 <= raw <= 65535,
            256 <= max <= 65280,
            fold_down(raw as nat, max as nat) == fold_down(bpm.0 as nat, max as nat),
        decreases raw,
    {
        raw = (raw + 1) / 2;
    }
    proof { lemma_fold_down_bounds(bpm.0 as nat, max as nat); }
    assert(raw == fold_down(bpm.0 as nat, max as nat));
    while raw < min
        invariant
            1 <= raw <= 131072,
            256 <= min <= max <= 65280,
            fold_up(raw as nat, min as nat) == fold_up(fold_down(bpm.0 as nat, max as nat), min as nat),
        decreases 131072 - raw,
    {
        raw = raw * 2;
    }
    proof { lemma_fold_up_bounds(fold_down(bpm.0 as nat, max as nat), min as nat); }
    assert(raw == fold_up(fold_down(bpm.0 as nat, max as nat), min as nat));
    let truncated: u16 = (raw % 65536) as u16;
    BpmQ8(truncated).clamp_with_limit(&lim)
}


// ─────────────────────────────────────────
//  RhythmGenerator
// ─────────────────────────────────────────

/// Phase generator with external synchronisation (Kuramoto-style coupling).
#[derive(Debug, Clone, Copy)]
pub struct RhythmGenerator {
    pub phase: u16,
    pub base_bpm: BpmQ8,
    pub current_bpm: BpmQ8,
    pub beat_count: u64,
    pub sync_state: SyncState,
    coupling_divisor: u16,
    phase_accum_sub16: u64,
    first_point_ts_ms: Option<u64>,
    first_point_beat_count: Option<u32>,
    last_sync_ts_ms: Option<u64>,
    last_sync_beat_count: Option<u32>,
    pulse_last_ts_ms: Option<u64>,
    pulse_silence_ms: u64,
    pulse_sync_param: PulseSyncParam,
    pulse_interval_ms_ring: [u32; 8],
    pulse_interval_len: u8,
    pulse_interval_next_idx: u8,
}

/// The abstract state of a generator.
pub struct GenModel {
    pub phase: u16,
    pub base_bpm: u16,
    pub current_bpm: u16,
    pub beat_count: u64,
    pub sync_state: SyncState,
    pub coupling_divisor: u16,
    /// Sub-phase accumulator: bits 32.. count cycles, bits 16..32 hold the phase.
    pub accum: u64,
    pub first_ts: Option<u64>,
    pub first_beat: Option<u32>,
    pub last_ts: Option<u64>,
    pub last_beat: Option<u32>,
    pub pulse_last_ts: Option<u64>,
    pub pulse_silence_ms: u64,
    pub pulse_param: PulseSyncParam,
    /// Ring of the last pulse intervals (8 entries).
    pub ring: Seq<u32>,
    pub ring_len: u8,
    pub ring_next: u8,
}

impl View for RhythmGenerator {
    type V = GenModel;

    closed spec fn view(&self) -> GenModel {
        GenModel {
            phase: self.phase,
            base_bpm: self.base_bpm.0,
            current_bpm: self.current_bpm.0,
            beat_count: self.beat_count,
            sync_state: self.sync_state,
            coupling_divisor: self.coupling_divisor,
            accum: self.phase_accum_sub16,
            first_ts: self.first_point_ts_ms,
            first_beat: self.first_point_beat_count,
            last_ts: self.last_sync_ts_ms,
            last_beat: self.last_sync_beat_count,
            pulse_last_ts: self.pulse_last_ts_ms,
            pulse_silence_ms: self.pulse_silence_ms,
            pulse_param: self.pulse_sync_param,
            ring: self.pulse_interval_ms_ring@,
            ring_len: self.pulse_interval_len,
            ring_next: self.pulse_interval_next_idx,
        }
    }
}

/// Eight zero intervals.
pub open spec fn empty_ring() -> Seq<u32> {
    seq![0u32, 0, 0, 0, 0, 0, 0, 0]
}

impl GenModel {
    /// Internal consistency: the phase is the phase field of the accumulator,
    /// the ring has 8 slots with in-range cursors, coupling is at least 2.
    pub open spec fn wf(self) -> bool {
        &&& self.phase == ((self.accum / 65536) % 65536) as u16
        &&& self.coupling_divisor >= 2
        &&& self.ring.len() == 8
        &&& self.ring_len <= 8
        &&& self.ring_next < 8
        &&& self.pulse_param.is_sane()
    }

    /// Sets the phase while keeping the accumulated cycle count.
    pub open spec fn force_phase(self, phase: u16) -> GenModel {
        GenModel { phase, accum: ((self.accum / 4294967296) * 4294967296 + phase * 65536) as u64, ..self }
    }

    /// Forgets all pulse history.
    pub open spec fn reset_pulse_tracking(self) -> GenModel {
        GenModel { pulse_last_ts: None, pulse_silence_ms: 0, ring: empty_ring(), ring_len: 0, ring_next: 0, ..self }
    }

    /// Falls back to waiting for a second observation, forgetting pulse history.
    pub open spec fn to_wait_second_point(self) -> GenModel {
        GenModel { sync_state: SyncState::WaitSecondPoint, first_ts: None, first_beat: None, ..self }.reset_pulse_tracking()
    }

    /// Whether a silence of `interval_ms` reaches the timeout of
    /// `missing_cycle_threshold` expected beats at the clamped base BPM.
    pub open spec fn timed_out(self, interval_ms: u64, limit: BpmLimitParam, param: PulseSyncParam) -> bool {
        let base = clamp_int(self.base_bpm as int, limit.lo_raw() as int, limit.hi_raw() as int) as u16;
        let timeout = spec_expected_interval_ms(base) * param.missing_cycle_threshold;
        let timeout_sat: int = if timeout > u64::MAX { u64::MAX as int } else { timeout };
        timeout_sat > 0 && interval_ms >= timeout_sat
    }

    /// Pulse timeout bookkeeping after `dt_ms` of free running.
    pub open spec fn pulse_timeout_step(self, dt_ms: u32, limit: BpmLimitParam) -> GenModel {
        if self.sync_state != SyncState::Locked || self.pulse_last_ts is None {
            self
        } else {
            let silence = if self.pulse_silence_ms + dt_ms > u64::MAX { u64::MAX } else { (self.pulse_silence_ms + dt_ms) as u64 };
            let g = GenModel { pulse_silence_ms: silence, ..self };
            if g.timed_out(silence, limit, self.pulse_param.spec_sanitize()) { g.to_wait_second_point() } else { g }
        }
    }

    /// Free running for `dt_ms`: both BPMs are clamped into the limit, the
    /// current BPM takes one smoothing step toward the base BPM, the
    /// accumulator advances at the current BPM, every completed cycle counts a
    /// beat (saturating), and a locked pulse follower may time out.
    pub open spec fn update(self, dt_ms: u32, limit: BpmLimitParam) -> GenModel {
        if dt_ms == 0 {
            self
        } else {
            let lo = limit.lo_raw();
            let hi = limit.hi_raw();
            let base = clamp_int(self.base_bpm as int, lo as int, hi as int) as u16;
            let cur0 = clamp_int(self.current_bpm as int, lo as int, hi as int) as u16;
            let cur = spec_blend(cur0, base, self.coupling_divisor as i32, lo, hi);
            let accum = ((self.accum + spec_phase_delta_sub16(cur, dt_ms)) % 18446744073709551616) as u64;
            let before = self.accum / 4294967296;
            let after = accum / 4294967296;
            let wraps: int = if after > before { after - before } else { 0 };
            let beats = if self.beat_count + wraps > u64::MAX { u64::MAX } else { (self.beat_count + wraps) as u64 };
            let g = GenModel {
                base_bpm: base,
                current_bpm: cur,
                accum,
                beat_count: beats,
                phase: ((accum / 65536) % 65536) as u16,
                ..self
            };
            g.pulse_timeout_step(dt_ms, limit)
        }
    }

    /// Synchronisation to a message received at `now_ms`.
    pub open spec fn sync(self, msg: RhythmMessage, now_ms: u64, limit: BpmLimitParam) -> GenModel {
        let lo = limit.lo_raw();
        let hi = limit.hi_raw();
        let s = self.reset_pulse_tracking();
        let remote = spec_compensated_remote_phase(msg, now_ms);
        let target = if lo <= msg.bpm.0 <= hi { remote } else { nearest_among(self.phase, remote, 4) };
        let hinted = spec_normalize(msg.bpm.0, limit);
        let s2 = match self.sync_state {
            SyncState::Idle => GenModel {
                sync_state: SyncState::WaitSecondPoint,
                first_ts: Some(msg.timestamp_ms),
                first_beat: Some(msg.beat_count),
                base_bpm: hinted,
                current_bpm: spec_blend(s.current_bpm, hinted, 2, lo, hi),
                ..s
            }.force_phase(target),
            SyncState::WaitSecondPoint => {
                let observed = match (self.first_ts, self.first_beat) {
                    (Some(t), Some(b)) => spec_observed_bpm(t, b, msg.timestamp_ms, msg.beat_count),
                    _ => None,
                };
                match observed {
                    Some(o) => {
                        let ob = spec_normalize(o, limit);
                        GenModel {
                            base_bpm: ob,
                            current_bpm: ob,
                            sync_state: SyncState::Locked,
                            first_ts: None,
                            first_beat: None,
                            ..s
                        }.force_phase(target)
                    },
                    None => GenModel {
                        first_ts: Some(msg.timestamp_ms),
                        first_beat: Some(msg.beat_count),
                        base_bpm: hinted,
                        current_bpm: spec_blend(s.current_bpm, hinted, 2, lo, hi),
                        ..s
                    }.force_phase(target),
                }
            },
            SyncState::Locked => {
                let observed = match (self.last_ts, self.last_beat) {
                    (Some(t), Some(b)) => spec_observed_bpm(t, b, msg.timestamp_ms, msg.beat_count),
                    _ => None,
                };
                let base1 = match observed {
                    Some(o) => spec_blend(s.base_bpm, spec_normalize(o, limit), 4, lo, hi),
                    None => s.base_bpm,
                };
                let base2 = spec_blend(base1, hinted, 4, lo, hi);
                GenModel {
                    base_bpm: base2,
                    current_bpm: spec_blend(s.current_bpm, base2, 2, lo, hi),
                    ..s
                }.force_phase(target)
            },
        };
        GenModel { last_ts: Some(msg.timestamp_ms), last_beat: Some(msg.beat_count), ..s2 }
    }

    /// The ring after recording a non-zero interval.
    pub open spec fn push_interval(self, interval_ms: u32) -> GenModel {
        if interval_ms == 0 {
            self
        } else {
            let idx = (self.ring_next % 8) as int;
            GenModel {
                ring: self.ring.update(idx, interval_ms),
                ring_next: ((idx + 1) % 8) as u8,
                ring_len: if self.ring_len < 8 { (self.ring_len + 1) as u8 } else { self.ring_len },
                ..self
            }
        }
    }

    /// Moving average (weight `alpha/256` for the newer value, rounded) of
    /// the BPMs of the first `k` recorded intervals, oldest first; zero
    /// entries are skipped.
    pub open spec fn ema_prefix(self, alpha: u32, k: nat) -> Option<u32>
        decreases k,
    {
        if k == 0 {
            None
        } else {
            let prev = self.ema_prefix(alpha, (k - 1) as nat);
            let start: int = if self.ring_len < 8 { 0 } else { (self.ring_next % 8) as int };
            let iv = self.ring[(start + k - 1) % 8];
            if iv == 0 {
                prev
            } else {
                let b = spec_bpm_from_interval_ms(iv) as u32;
                match prev {
                    Some(p) => Some(((p * (256 - alpha) + b * alpha + 128) / 256) as u32),
                    None => Some(b),
                }
            }
        }
    }

    /// BPM estimated from the recorded pulse intervals.
    pub open spec fn estimated_pulse_bpm(self, param: PulseSyncParam) -> Option<u16> {
        if self.ring_len == 0 {
            None
        } else {
            match self.ema_prefix(param.spec_sanitize().bpm_ema_alpha_q8 as u32, self.ring_len as nat) {
                Some(v) => Some(if v > 65535 { 65535u16 } else { v as u16 }),
                None => None,
            }
        }
    }

    /// Synchronisation to a bare pulse seen at `pulse_ts_ms`, processed at `now_ms`.
    pub open spec fn sync_pulse(self, pulse_ts_ms: u64, now_ms: u64, limit: BpmLimitParam) -> GenModel {
        let lo = limit.lo_raw();
        let hi = limit.hi_raw();
        let param = self.pulse_param.spec_sanitize();
        let interval0: Option<u32> = match self.pulse_last_ts {
            Some(last) => if pulse_ts_ms > last { Some(cap_u32(pulse_ts_ms - last)) } else { None },
            None => None,
        };
        let timed_out = match interval0 {
            Some(iv) => self.sync_state == SyncState::Locked && self.timed_out(iv as u64, limit, param),
            None => false,
        };
        let g0 = if timed_out { self.to_wait_second_point() } else { self };
        let interval: Option<u32> = if timed_out { None } else { interval0 };
        let g1 = match interval { Some(iv) => g0.push_interval(iv), None => g0 };
        let raw_latest: Option<u16> = match interval { Some(iv) => Some(spec_bpm_from_interval_ms(iv)), None => None };
        let raw_smoothed: Option<u16> = match g1.estimated_pulse_bpm(param) { Some(v) => Some(v), None => raw_latest };
        let raw_pulse: u16 = match raw_latest {
            Some(v) => v,
            None => match raw_smoothed { Some(v) => v, None => g1.current_bpm },
        };
        let pulse_bpm = spec_normalize(raw_pulse, limit);
        let smoothed = spec_normalize(match raw_smoothed { Some(v) => v, None => raw_pulse }, limit);
        let comp = spec_compensated_pulse_phase(pulse_ts_ms, now_ms, pulse_bpm);
        let target = if lo <= raw_pulse <= hi { comp } else { nearest_among(g1.phase, comp, 4) };
        let g2 = match g1.sync_state {
            SyncState::Idle => GenModel {
                sync_state: SyncState::WaitSecondPoint,
                first_ts: Some(pulse_ts_ms),
                first_beat: None,
                base_bpm: pulse_bpm,
                current_bpm: spec_blend(g1.current_bpm, pulse_bpm, 2, lo, hi),
                ..g1
            }.force_phase(target),
            SyncState::WaitSecondPoint => if interval is Some {
                GenModel {
                    base_bpm: smoothed,
                    current_bpm: smoothed,
                    sync_state: SyncState::Locked,
                    first_ts: None,
                    first_beat: None,
                    ..g1
                }.force_phase(target)
            } else {
                GenModel {
                    first_ts: Some(pulse_ts_ms),
                    first_beat: None,
                    base_bpm: pulse_bpm,
                    current_bpm: spec_blend(g1.current_bpm, pulse_bpm, 2, lo, hi),
                    ..g1
                }.force_phase(target)
            },
            SyncState::Locked => if interval is Some {
                GenModel {
                    base_bpm: smoothed,
                    current_bpm: spec_blend(g1.current_bpm, smoothed, 2, lo, hi),
                    ..g1
                }.force_phase(target)
            } else {
                GenModel {
                    current_bpm: spec_blend(g1.current_bpm, g1.base_bpm, 2, lo, hi),
                    ..g1
                }.force_phase(target)
            },
        };
        GenModel {
            pulse_last_ts: Some(pulse_ts_ms),
            pulse_silence_ms: 0,
            last_ts: Some(pulse_ts_ms),
            last_beat: None,
            ..g2
        }
    }
}


proof fn lemma_force_phase_bits(accum: u64, p: u16)
    ensures
        ((accum >> 32u64) << 32u64) | ((p as u64) << 16u64) == (accum / 4294967296) * 4294967296 + (p as u64) * 65536,
        ((((accum / 4294967296) * 4294967296 + (p as u64) * 65536) as u64 / 65536) % 65536) as u16 == p,
{
    assert(((accum >> 32u64) << 32u64) | ((p as u64) << 16u64) == (accum / 4294967296) * 4294967296 + (p as u64) * 65536) by (bit_vector);
    assert(((((accum / 4294967296) * 4294967296 + (p as u64) * 65536) as u64 / 65536) % 65536) as u16 == p) by (bit_vector);
}

proof fn lemma_accum_bits(accum: u64)
    ensures
        accum >> 32u64 == accum / 4294967296,
        ((accum >> 16u64) & 0xFFFFu64) as u16 == ((accum / 65536) % 65536) as u16,
{
    assert(accum >> 32u64 == accum / 4294967296) by (bit_vector);
    assert(((accum >> 16u64) & 0xFFFFu64) as u16 == ((accum / 65536) % 65536) as u16) by (bit_vector);
}

impl RhythmGenerator {
    /// Builds a free-running generator at `phase` and `bpm`; the coupling
    /// divisor is raised to at least 2.
    pub fn new(phase: u16, bpm: BpmQ8, coupling_divisor: u16) -> (r: RhythmGenerator)
        ensures
            r@.wf(),
            r@.phase == phase,
            r@.base_bpm == bpm.0,
            r@.current_bpm == bpm.0,
            r@.beat_count == 0,
            r@.sync_state == SyncState::Idle,
            r@.coupling_divisor == if coupling_divisor < 2 { 2 } else { coupling_divisor },
            r@.accum == phase * 65536,
            r@.first_ts is None && r@.first_beat is None,
            r@.last_ts is None && r@.last_beat is None,
            r@.pulse_last_ts is None,
            r@.pulse_silence_ms == 0,
            r@.pulse_param == (PulseSyncParam { missing_cycle_threshold: 4, bpm_ema_alpha_q8: 96 }),
            r@.ring == empty_ring(),
            r@.ring_len == 0 && r@.ring_next == 0,
    {
        let ring: [u32; 8] = [0, 0, 0, 0, 0, 0, 0, 0];
        assert(ring@ =~= empty_ring());
        let accum: u64 = (phase as u64) * 65536;
        proof { lemma_force_phase_bits(0, phase); }
        RhythmGenerator {
            phase,
            base_bpm: bpm,
            current_bpm: bpm,
            beat_count: 0,
            sync_state: SyncState::Idle,
            coupling_divisor: if coupling_divisor < 2 { 2 } else { coupling_divisor },
            phase_accum_sub16: accum,
            first_point_ts_ms: None,
            first_point_beat_count: None,
            last_sync_ts_ms: None,
            last_sync_beat_count: None,
            pulse_last_ts_ms: None,
            pulse_silence_ms: 0,
            pulse_sync_param: PulseSyncParam::default_param(),
            pulse_interval_ms_ring: ring,
            pulse_interval_len: 0,
            pulse_interval_next_idx: 0,
        }
    }

    /// Builds a generator from an integer BPM.
    pub fn from_int_bpm(phase: u16, bpm: u16, coupling_divisor: u16) -> (r: RhythmGenerator)
        ensures
            r@ == RhythmGenerator::new_model(phase, spec_bpm_from_int(bpm), coupling_divisor),
            r@.wf(),
    {
        Self::new(phase, BpmQ8::from_int(bpm), coupling_divisor)
    }

    /// The model of a freshly built generator.
    pub open spec fn new_model(phase: u16, bpm_raw: u16, coupling_divisor: u16) -> GenModel {
        GenModel {
            phase,
            base_bpm: bpm_raw,
            current_bpm: bpm_raw,
            beat_count: 0,
            sync_state: SyncState::Idle,
            coupling_divisor: if coupling_divisor < 2 { 2 } else { coupling_divisor },
            accum: (phase * 65536) as u64,
            first_ts: None,
            first_beat: None,
            last_ts: None,
            last_beat: None,
            pulse_last_ts: None,
            pulse_silence_ms: 0,
            pulse_param: PulseSyncParam { missing_cycle_threshold: 4, bpm_ema_alpha_q8: 96 },
            ring: empty_ring(),
            ring_len: 0,
            ring_next: 0,
        }
    }

    /// The base BPM in raw Q8.8 (the public field `base_bpm`).
    pub fn base_bpm_raw(&self) -> (r: u16)
        ensures
            r == self@.base_bpm,
    {
        self.base_bpm.0
    }

    /// The synchronisation state (the public field `sync_state`).
    pub fn sync_state_value(&self) -> (r: SyncState)
        ensures
            r == self@.sync_state,
    {
        self.sync_state
    }

    /// The current phase.
    pub fn phase_raw(&self) -> (r: u16)
        ensures
            r == self@.phase,
    {
        self.phase
    }

    /// The current BPM in raw Q8.8.
    pub fn current_bpm_raw(&self) -> (r: u16)
        ensures
            r == self@.current_bpm,
    {
        self.current_bpm.0
    }

    /// The number of beats counted so far.
    pub fn beat_count_value(&self) -> (r: u64)
        ensures
            r == self@.beat_count,
    {
        self.beat_count
    }

    /// Replaces the pulse synchronisation parameters (sanitised).
    pub fn set_pulse_sync_param(&mut self, pulse_sync_param: PulseSyncParam)
        ensures
            final(self)@ == (GenModel { pulse_param: pulse_sync_param.spec_sanitize(), ..old(self)@ }),
    {
        self.pulse_sync_param = pulse_sync_param.sanitize();
    }

    /// The current pulse synchronisation parameters.
    pub fn pulse_sync_param(&self) -> (r: PulseSyncParam)
        ensures
            r == self@.pulse_param,
    {
        self.pulse_sync_param
    }

    /// The message describing the generator at `now_ms` (beat count capped at `u32::MAX`).
    pub fn to_message(&self, now_ms: u64) -> (r: RhythmMessage)
        ensures
            r == (RhythmMessage {
                timestamp_ms: now_ms,
                beat_count: cap_u32(self@.beat_count as int),
                phase: self@.phase,
                bpm: BpmQ8(self@.current_bpm),
            }),
    {
        RhythmMessage {
            timestamp_ms: now_ms,
            beat_count: if self.beat_count > u32::MAX as u64 { u32::MAX } else { self.beat_count as u32 },
            phase: self.phase,
            bpm: self.current_bpm,
        }
    }

    fn force_phase(&mut self, phase: u16)
        ensures
            final(self)@ == old(self)@.force_phase(phase),
    {
        let accum = self.phase_accum_sub16;
        let cycles: u64 = accum >> 32;
        proof { lemma_force_phase_bits(accum, phase); }
        self.phase = phase;
        self.phase_accum_sub16 = (cycles << 32) | ((phase as u64) << 16);
    }

    fn reset_pulse_tracking(&mut self)
        ensures
            final(self)@ == old(self)@.reset_pulse_tracking(),
    {
        self.pulse_last_ts_ms = None;
        self.pulse_silence_ms = 0;
        let ring: [u32; 8] = [0, 0, 0, 0, 0, 0, 0, 0];
        assert(ring@ =~= empty_ring());
        self.pulse_interval_ms_ring = ring;
        self.pulse_interval_len = 0;
        self.pulse_interval_next_idx = 0;
    }

    fn transition_to_wait_second_point(&mut self)
        ensures
            final(self)@ == old(self)@.to_wait_second_point(),
    {
        self.sync_state = SyncState::WaitSecondPoint;
        self.first_point_ts_ms = None;
        self.first_point_beat_count = None;
        self.reset_pulse_tracking();
    }

    fn is_pulse_interval_timed_out(&self, interval_ms: u64, limit: &BpmLimitParam, param: &PulseSyncParam) -> (r: bool)
        ensures
            r == self@.timed_out(interval_ms, *limit, *param),
    {
        let expected = expected_interval_ms_from_bpm(self.base_bpm.clamp_with_limit(limit));
        let th = param.missing_cycle_threshold as u64;
        let timeout_ms: u64 = match expected.checked_mul(th) {
            Some(v) => v,
            None => u64::MAX,
        };
        timeout_ms > 0 && interval_ms >= timeout_ms
    }

    fn handle_pulse_timeout(&mut self, dt_ms: u32, limit: &BpmLimitParam)
        ensures
            final(self)@ == old(self)@.pulse_timeout_step(dt_ms, *limit),
    {
        if self.sync_state != SyncState::Locked || self.pulse_last_ts_ms.is_none() {
            return;
        }
        self.pulse_silence_ms = self.pulse_silence_ms.saturating_add(dt_ms as u64);
        let param = self.pulse_sync_param.sanitize();
        let silence = self.pulse_silence_ms;
        if self.is_pulse_interval_timed_out(silence, limit, &param) {
            self.transition_to_wait_second_point();
        }
    }

    /// Free-running update by `dt_ms`: the BPMs are constrained to
    /// `bpm_limit_param`, the current BPM relaxes toward the base BPM, the
    /// phase advances and whole cycles are counted as beats.
    pub fn update(&mut self, dt_ms: u32, bpm_limit_param: &BpmLimitParam)
        ensures
            final(self)@ == old(self)@.update(dt_ms, *bpm_limit_param),
    {
        if dt_ms == 0 {
            return;
        }
        let limit = bpm_limit_param.sanitize();
        self.base_bpm = self.base_bpm.clamp_with_limit(&limit);
        self.current_bpm = self.current_bpm.clamp_with_limit(&limit);
        self.current_bpm = self.current_bpm.blend_toward_with_limit(
            self.base_bpm,
            self.coupling_divisor as i32,
            &limit,
        );
        let before_cycles: u64 = self.phase_accum_sub16 >> 32;
        let delta_sub16 = phase_advance_sub16(self.current_bpm.raw(), dt_ms);
        let old_accum = self.phase_accum_sub16;
        self.phase_accum_sub16 = self.phase_accum_sub16.wrapping_add(delta_sub16);
        let new_accum = self.phase_accum_sub16;
        let after_cycles: u64 = new_accum >> 32;
        proof {
            lemma_accum_bits(old_accum);
            lemma_accum_bits(new_accum);
        }
        let wraps = after_cycles.saturating_sub(before_cycles);
        self.beat_count = self.beat_count.saturating_add(wraps);
        self.phase = ((new_accum >> 16) & 0xFFFF) as u16;
        self.handle_pulse_timeout(dt_ms, &limit);
    }
}


impl RhythmGenerator {
    /// Synchronises to a message received at `now_ms`.
    ///
    /// The remote phase is advanced by the transport delay; the first point
    /// only moves toward the hinted BPM, a second point establishes the BPM from
    /// the beat count difference and locks; out-of-range tempos are folded by
    /// factors of two and then snap the phase to the nearest quarter cycle.
    pub fn sync(&mut self, msg: RhythmMessage, now_ms: u64, bpm_limit_param: &BpmLimitParam)
        ensures
            final(self)@ == old(self)@.sync(msg, now_ms, *bpm_limit_param),
    {
        let limit = bpm_limit_param.sanitize();
        let ghost g0 = self@;
        self.reset_pulse_tracking();

        let remote = compensated_remote_phase(msg, now_ms);
        let phase_target = if is_bpm_in_primary_range(msg.bpm, &limit) {
            remote
        } else {
            nearest_quarter_phase(self.phase, remote)
        };
        let hinted_bpm = normalize_bpm_to_primary_range(msg.bpm, &limit);

        match self.sync_state {
            SyncState::Idle => {
                self.sync_state = SyncState::WaitSecondPoint;
                self.first_point_ts_ms = Some(msg.timestamp_ms);
                self.first_point_beat_count = Some(msg.beat_count);
                self.base_bpm = hinted_bpm;
                self.current_bpm = self.current_bpm.blend_toward_with_limit(hinted_bpm, 2, &limit);
                self.force_phase(phase_target);
            },
            SyncState::WaitSecondPoint => {
                let observed = match (self.first_point_ts_ms, self.first_point_beat_count) {
                    (Some(first_ts), Some(first_beat_count)) => observed_bpm_from_points(
                        first_ts,
                        first_beat_count,
                        msg.timestamp_ms,
                        msg.beat_count,
                    ),
                    _ => None,
                };
                match observed {
                    Some(observed_raw_bpm) => {
                        let observed_bpm = normalize_bpm_to_primary_range(observed_raw_bpm, &limit);
                        self.base_bpm = observed_bpm;
                        self.current_bpm = observed_bpm;
                        self.sync_state = SyncState::Locked;
                        self.first_point_ts_ms = None;
                        self.first_point_beat_count = None;
                    },
                    None => {
                        self.first_point_ts_ms = Some(msg.timestamp_ms);
                        self.first_point_beat_count = Some(msg.beat_count);
                        self.base_bpm = hinted_bpm;
                        self.current_bpm = self.current_bpm.blend_toward_with_limit(hinted_bpm, 2, &limit);
                    },
                }
                self.force_phase(phase_target);
            },
            SyncState::Locked => {
                let observed = match (self.last_sync_ts_ms, self.last_sync_beat_count) {
                    (Some(last_ts), Some(last_beat_count)) => observed_bpm_from_points(
                        last_ts,
                        last_beat_count,
                        msg.timestamp_ms,
                        msg.beat_count,
                    ),
                    _ => None,
                };
                if let Some(observed_raw_bpm) = observed {
                    let observed_bpm = normalize_bpm_to_primary_range(observed_raw_bpm, &limit);
                    self.base_bpm = self.base_bpm.blend_toward_with_limit(observed_bpm, 4, &limit);
                }
                self.base_bpm = self.base_bpm.blend_toward_with_limit(hinted_bpm, 4, &limit);
                self.current_bpm = self.current_bpm.blend_toward_with_limit(self.base_bpm, 2, &limit);
                self.force_phase(phase_target);
            },
        }

        self.last_sync_ts_ms = Some(msg.timestamp_ms);
        self.last_sync_beat_count = Some(msg.beat_count);
    }

    fn push_pulse_interval(&mut self, interval_ms: u32)
        ensures
            final(self)@ == old(self)@.push_interval(interval_ms),
    {
        if interval_ms == 0 {
            return;
        }
        let idx: usize = self.pulse_interval_next_idx as usize % PULSE_INTERVAL_HISTORY_SIZE;
        self.pulse_interval_ms_ring[idx] = interval_ms;
        self.pulse_interval_next_idx = ((idx + 1) % PULSE_INTERVAL_HISTORY_SIZE) as u8;
        if self.pulse_interval_len < PULSE_INTERVAL_HISTORY_SIZE as u8 {
            self.pulse_interval_len += 1;
        }
    }

    fn estimated_pulse_bpm(&self, pulse_sync_param: &PulseSyncParam) -> (r: Option<BpmQ8>)
        ensures
            r == (match self@.estimated_pulse_bpm(*pulse_sync_param) {
                Some(v) => Some(BpmQ8(v)),
                None => None,
            }),
    {
        proof { vstd::array::array_len_matches_n(&self.pulse_interval_ms_ring); }
        let len = self.pulse_interval_len as usize;
        if len == 0 {
            return None;
        }
        let param = pulse_sync_param.sanitize();
        let alpha: u32 = param.bpm_ema_alpha_q8 as u32;
        let beta: u32 = EMA_Q8_ONE - alpha;
        let start_idx: usize = if len < PULSE_INTERVAL_HISTORY_SIZE {
            0
        } else {
            self.pulse_interval_next_idx as usize % PULSE_INTERVAL_HISTORY_SIZE
        };
        let mut ema: Option<u32> = None;
        let mut offset: usize = 0;
        while offset < len
            invariant
                0 <= offset <= len,
                len == self@.ring_len,
                self@.ring.len() == 8,
                1 <= alpha <= 255,
                beta == 256 - alpha,
                start_idx == (if self@.ring_len < 8 { 0 } else { (self@.ring_next % 8) as int }),
                ema == self@.ema_prefix(alpha, offset as nat),
                match ema { Some(v) => v <= 65535, None => true },
            decreases len - offset,
        {
            let idx = (start_idx + offset) % PULSE_INTERVAL_HISTORY_SIZE;
            let interval_ms = self.pulse_interval_ms_ring[idx];
            if interval_ms != 0 {
                let bpm_raw: u32 = BpmQ8::from_interval_ms(interval_ms).raw() as u32;
                ema = Some(match ema {
                    Some(prev) => {
                        assert(prev * beta + bpm_raw * alpha <= 65535 * 256) by (nonlinear_arith)
                            requires prev <= 65535, bpm_raw <= 65535, beta == 256 - alpha, 1 <= alpha <= 255;
                        (prev * beta + bpm_raw * alpha + EMA_Q8_ONE / 2) / EMA_Q8_ONE
                    },
                    None => bpm_raw,
                });
            }
            offset += 1;
        }
        match ema {
            Some(raw) => Some(BpmQ8(if raw > 65535 { 65535 } else { raw as u16 })),
            None => None,
        }
    }

    /// Synchronises to a bare pulse at `pulse_ts_ms` processed at `now_ms`:
    /// the BPM is estimated from a moving average of pulse intervals, folded
    /// into the limit, a long silence while locked restarts calibration, and
    /// the phase is compensated for the processing delay.
    pub fn sync_pulse(&mut self, pulse_ts_ms: u64, now_ms: u64, bpm_limit_param: &BpmLimitParam)
        ensures
            final(self)@ == old(self)@.sync_pulse(pulse_ts_ms, now_ms, *bpm_limit_param),
    {
        let limit = bpm_limit_param.sanitize();
        let param = self.pulse_sync_param.sanitize();
        proof { vstd::array::array_len_matches_n(&self.pulse_interval_ms_ring); }

        let mut maybe_interval_ms: Option<u32> = match self.pulse_last_ts_ms {
            Some(last_ts) => if pulse_ts_ms > last_ts {
                let d = pulse_ts_ms - last_ts;
                Some(if d > u32::MAX as u64 { u32::MAX } else { d as u32 })
            } else {
                None
            },
            None => None,
        };

        if let Some(interval_ms) = maybe_interval_ms {
            if self.sync_state == SyncState::Locked && self.is_pulse_interval_timed_out(
                interval_ms as u64,
                &limit,
                &param,
            ) {
                self.transition_to_wait_second_point();
                maybe_interval_ms = None;
            }
        }

        if let Some(interval_ms) = maybe_interval_ms {
            self.push_pulse_interval(interval_ms);
        }

        let raw_latest_bpm: Option<BpmQ8> = match maybe_interval_ms {
            Some(iv) => Some(BpmQ8::from_interval_ms(iv)),
            None => None,
        };
        let raw_smoothed_bpm: Option<BpmQ8> = match self.estimated_pulse_bpm(&param) {
            Some(v) => Some(v),
            None => raw_latest_bpm,
        };
        let raw_pulse_bpm: BpmQ8 = match raw_latest_bpm {
            Some(v) => v,
            None => match raw_smoothed_bpm {
                Some(v) => v,
                None => self.current_bpm,
            },
        };
        let pulse_bpm = normalize_bpm_to_primary_range(raw_pulse_bpm, &limit);
        let smoothed_source = match raw_smoothed_bpm {
            Some(v) => v,
            None => raw_pulse_bpm,
        };
        let smoothed_pulse_bpm = normalize_bpm_to_primary_range(smoothed_source, &limit);

        let comp = compensated_pulse_phase(pulse_ts_ms, now_ms, pulse_bpm);
        let phase_target = if is_bpm_in_primary_range(raw_pulse_bpm, &limit) {
            comp
        } else {
            nearest_quarter_phase(self.phase, comp)
        };

        match self.sync_state {
            SyncState::Idle => {
                self.sync_state = SyncState::WaitSecondPoint;
                self.first_point_ts_ms = Some(pulse_ts_ms);
                self.first_point_beat_count = None;
                self.base_bpm = pulse_bpm;
                self.current_bpm = self.current_bpm.blend_toward_with_limit(pulse_bpm, 2, &limit);
                self.force_phase(phase_target);
            },
            SyncState::WaitSecondPoint => {
                if maybe_interval_ms.is_some() {
                    self.base_bpm = smoothed_pulse_bpm;
                    self.current_bpm = smoothed_pulse_bpm;
                    self.sync_state = SyncState::Locked;
                    self.first_point_ts_ms = None;
                    self.first_point_beat_count = None;
                } else {
                    self.first_point_ts_ms = Some(pulse_ts_ms);
                    self.first_point_beat_count = None;
                    self.base_bpm = pulse_bpm;
                    self.current_bpm = self.current_bpm.blend_toward_with_limit(pulse_bpm, 2, &limit);
                }
                self.force_phase(phase_target);
            },
            SyncState::Locked => {
                if maybe_interval_ms.is_some() {
                    self.base_bpm = smoothed_pulse_bpm;
                    self.current_bpm = self.current_bpm.blend_toward_with_limit(smoothed_pulse_bpm, 2, &limit);
                } else {
                    self.current_bpm = self.current_bpm.blend_toward_with_limit(self.base_bpm, 2, &limit);
                }
                self.force_phase(phase_target);
            },
        }

        self.pulse_last_ts_ms = Some(pulse_ts_ms);
        self.pulse_silence_ms = 0;
        self.last_sync_ts_ms = Some(pulse_ts_ms);
        self.last_sync_beat_count = None;
    }
}


// ─────────────────────────────────────────
//  Laws
// ─────────────────────────────────────────

/// The Q8.8 ends of a limit are ordered and at least one BPM apart from 0.
pub proof fn lemma_limit_ordered(limit: BpmLimitParam)
    ensures
        256 <= limit.lo_raw() <= limit.hi_raw() <= 65280,
{
}

/// A smoothing step with divisor at least 2 toward a target inside `[lo, hi]`
/// stays inside `[lo, hi]`.
pub proof fn lemma_blend_in_range(cur: u16, target: u16, divisor: i32, lo: u16, hi: u16)
    requires
        lo <= hi,
        lo <= target <= hi,
        divisor >= 2,
    ensures
        lo <= spec_blend(cur, target, divisor, lo, hi) <= hi,
{
}

/// A smoothing step moves toward the target: the result lies between the
/// current value and the target whenever both are inside `[lo, hi]`.
pub proof fn lemma_blend_moves_toward_target(cur: u16, target: u16, divisor: i32, lo: u16, hi: u16)
    requires
        lo <= hi,
        lo <= target <= hi,
        lo <= cur <= hi,
        divisor >= 2,
    ensures
        cur <= target ==> cur <= spec_blend(cur, target, divisor, lo, hi) <= target,
        target <= cur ==> target <= spec_blend(cur, target, divisor, lo, hi) <= cur,
        cur != target ==> spec_blend(cur, target, divisor, lo, hi) != cur,
{
    if cur != target {
        let diff = target - cur;
        let q = crate::rhythm::fixed_math::trunc_div(diff, divisor as int);
        if diff > 0 {
            assert(0 <= q <= diff) by (nonlinear_arith)
                requires q == diff / (divisor as int), diff > 0, divisor >= 2;
        } else {
            assert(0 <= (-diff) / (divisor as int) <= -diff) by (nonlinear_arith)
                requires diff < 0, divisor >= 2;
        }
    }
}

proof fn lemma_force_phase_wf(g: GenModel, p: u16)
    requires
        g.wf(),
    ensures
        g.force_phase(p).wf(),
        g.force_phase(p).phase == p,
{
    lemma_force_phase_bits(g.accum, p);
}

/// Free running keeps the generator well formed.
pub proof fn lemma_update_preserves_wf(g: GenModel, dt_ms: u32, limit: BpmLimitParam)
    requires
        g.wf(),
    ensures
        g.update(dt_ms, limit).wf(),
{
}

/// After free running for a positive time both BPMs lie within the limit.
pub proof fn lemma_update_bpm_within_limit(g: GenModel, dt_ms: u32, limit: BpmLimitParam)
    requires
        dt_ms > 0,
    ensures
        limit.lo_raw() <= g.update(dt_ms, limit).base_bpm <= limit.hi_raw(),
        limit.lo_raw() <= g.update(dt_ms, limit).current_bpm <= limit.hi_raw(),
{
}

/// Beats are never lost: free running never decreases the beat count.
pub proof fn lemma_update_beats_monotone(g: GenModel, dt_ms: u32, limit: BpmLimitParam)
    ensures
        g.update(dt_ms, limit).beat_count >= g.beat_count,
{
}

/// Free running for 0 ms changes nothing.
pub proof fn lemma_update_zero_is_identity(g: GenModel, limit: BpmLimitParam)
    ensures
        g.update(0, limit) == g,
{
}

/// Synchronising to a message keeps the generator well formed, leaves both
/// BPMs inside the limit and sets the phase to the delay-compensated remote
/// phase (snapped to a quarter cycle when the tempo had to be folded).
pub proof fn lemma_sync_effects(g: GenModel, msg: RhythmMessage, now_ms: u64, limit: BpmLimitParam)
    requires
        g.wf(),
    ensures
        g.sync(msg, now_ms, limit).wf(),
        limit.lo_raw() <= g.sync(msg, now_ms, limit).base_bpm <= limit.hi_raw(),
        limit.lo_raw() <= g.sync(msg, now_ms, limit).current_bpm <= limit.hi_raw(),
        limit.lo_raw() <= msg.bpm.0 <= limit.hi_raw() ==> g.sync(msg, now_ms, limit).phase
            == spec_compensated_remote_phase(msg, now_ms),
        !(limit.lo_raw() <= msg.bpm.0 <= limit.hi_raw()) ==> g.sync(msg, now_ms, limit).phase
            == nearest_among(g.phase, spec_compensated_remote_phase(msg, now_ms), 4),
        g.sync(msg, now_ms, limit).last_ts == Some(msg.timestamp_ms),
        g.sync(msg, now_ms, limit).last_beat == Some(msg.beat_count),
        g.sync(msg, now_ms, limit).pulse_last_ts is None,
{
    let lo = limit.lo_raw();
    let hi = limit.hi_raw();
    let s = g.reset_pulse_tracking();
    assert(s.wf());
    let remote = spec_compensated_remote_phase(msg, now_ms);
    let target = if lo <= msg.bpm.0 <= hi { remote } else { nearest_among(g.phase, remote, 4) };
    let hinted = spec_normalize(msg.bpm.0, limit);
    lemma_normalize_in_limit(msg.bpm.0, limit);
    match g.sync_state {
        SyncState::Idle => {
            let m = GenModel {
                sync_state: SyncState::WaitSecondPoint,
                first_ts: Some(msg.timestamp_ms),
                first_beat: Some(msg.beat_count),
                base_bpm: hinted,
                current_bpm: spec_blend(s.current_bpm, hinted, 2, lo, hi),
                ..s
            };
            lemma_force_phase_wf(m, target);
        },
        SyncState::WaitSecondPoint => {
            let observed = match (g.first_ts, g.first_beat) {
                (Some(t), Some(b)) => spec_observed_bpm(t, b, msg.timestamp_ms, msg.beat_count),
                _ => None,
            };
            match observed {
                Some(o) => {
                    lemma_normalize_in_limit(o, limit);
                    let ob = spec_normalize(o, limit);
                    let m = GenModel {
                        base_bpm: ob,
                        current_bpm: ob,
                        sync_state: SyncState::Locked,
                        first_ts: None,
                        first_beat: None,
                        ..s
                    };
                    lemma_force_phase_wf(m, target);
                },
                None => {
                    let m = GenModel {
                        first_ts: Some(msg.timestamp_ms),
                        first_beat: Some(msg.beat_count),
                        base_bpm: hinted,
                        current_bpm: spec_blend(s.current_bpm, hinted, 2, lo, hi),
                        ..s
                    };
                    lemma_force_phase_wf(m, target);
                },
            }
        },
        SyncState::Locked => {
            let observed = match (g.last_ts, g.last_beat) {
                (Some(t), Some(b)) => spec_observed_bpm(t, b, msg.timestamp_ms, msg.beat_count),
                _ => None,
            };
            let base1 = match observed {
                Some(o) => spec_blend(s.base_bpm, spec_normalize(o, limit), 4, lo, hi),
                None => s.base_bpm,
            };
            let base2 = spec_blend(base1, hinted, 4, lo, hi);
            lemma_blend_in_range(base1, hinted, 4, lo, hi);
            lemma_blend_in_range(s.current_bpm, base2, 2, lo, hi);
            let m = GenModel {
                base_bpm: base2,
                current_bpm: spec_blend(s.current_bpm, base2, 2, lo, hi),
                ..s
            };
            lemma_force_phase_wf(m, target);
        },
    }
}

/// The lock protocol for messages: the first message moves an idle generator
/// to `WaitSecondPoint`, a locked generator stays locked, and a waiting one
/// locks exactly when its first point and the new message give a BPM.
pub proof fn lemma_sync_state_machine(g: GenModel, msg: RhythmMessage, now_ms: u64, limit: BpmLimitParam)
    ensures
        g.sync_state == SyncState::Idle ==> g.sync(msg, now_ms, limit).sync_state == SyncState::WaitSecondPoint,
        g.sync_state == SyncState::Locked ==> g.sync(msg, now_ms, limit).sync_state == SyncState::Locked,
        g.sync_state == SyncState::WaitSecondPoint ==> (g.sync(msg, now_ms, limit).sync_state == SyncState::Locked
            <==> (g.first_ts is Some && g.first_beat is Some
                && spec_observed_bpm(g.first_ts->0, g.first_beat->0, msg.timestamp_ms, msg.beat_count) is Some)),
        g.sync_state == SyncState::WaitSecondPoint ==> g.sync(msg, now_ms, limit).sync_state != SyncState::Idle,
{
}

/// The normalised BPM lies within the limit.
pub proof fn lemma_normalize_in_limit(bpm_raw: u16, limit: BpmLimitParam)
    ensures
        limit.lo_raw() <= spec_normalize(bpm_raw, limit) <= limit.hi_raw(),
{
}

proof fn lemma_fold_up_power(raw: nat, lo: nat) -> (k: nat)
    requires
        raw >= 1,
    ensures
        fold_up(raw, lo) == raw * pow2(k),
    decreases (if raw >= lo { 0 } else { lo - raw }),
{
    if raw >= lo {
        vstd::arithmetic::power2::lemma2_to64();
        assert(raw * pow2(0) == raw) by (nonlinear_arith) requires pow2(0) == 1;
        0
    } else {
        let k = lemma_fold_up_power(raw * 2, lo);
        vstd::arithmetic::power2::lemma_pow2_unfold(k + 1);
        assert(raw * 2 * pow2(k) == raw * pow2(k + 1)) by (nonlinear_arith)
            requires pow2(k + 1) == 2 * pow2(k);
        k + 1
    }
}

/// A tempo too slow for the limit is doubled into it: a non-zero BPM below
/// the lower end `lo` (with `2 * lo <= hi`) normalises to `bpm * 2^k` for
/// the least `k` with `bpm * 2^k >= lo`, which lies in `[lo, 2 * lo)`. In
/// particular half of a tempo in `[lo, 2 * lo)` normalises back to it.
pub proof fn lemma_normalize_doubles_slow_tempo(bpm_raw: u16, limit: BpmLimitParam)
    requires
        0 < bpm_raw < limit.lo_raw(),
        2 * limit.lo_raw() <= limit.hi_raw(),
    ensures
        exists|k: nat| k >= 1 && spec_normalize(bpm_raw, limit) == bpm_raw * #[trigger] pow2(k),
        limit.lo_raw() <= spec_normalize(bpm_raw, limit) < 2 * limit.lo_raw(),
        forall|x: u16| limit.lo_raw() <= x < 2 * limit.lo_raw() && x % 2 == 0
            ==> #[trigger] spec_normalize(x / 2, limit) == x,
{
    let lo = limit.lo_raw() as nat;
    let hi = limit.hi_raw() as nat;
    assert(fold_down(bpm_raw as nat, hi) == bpm_raw as nat);
    lemma_fold_up_bounds(bpm_raw as nat, lo);
    let k = lemma_fold_up_power(bpm_raw as nat, lo);
    if k == 0 {
        vstd::arithmetic::power2::lemma2_to64();
        assert(bpm_raw as nat * pow2(0) == bpm_raw) by (nonlinear_arith) requires pow2(0) == 1;
    }
    assert(spec_normalize(bpm_raw, limit) == fold_up(bpm_raw as nat, lo));
    assert forall|x: u16| limit.lo_raw() <= x < 2 * limit.lo_raw() && x % 2 == 0
        implies #[trigger] spec_normalize(x / 2, limit) == x by {
        let h = (x / 2) as nat;
        assert(h >= 1 && h < lo && h * 2 == x);
        assert(fold_down(h, hi) == h);
        assert(fold_up(h * 2, lo) == h * 2);
        assert(fold_up(h, lo) == x);
    }
}

/// A pulse that records a new interval on a waiting or locked generator
/// (without timing out) sets the base tempo to the smoothed pulse tempo:
/// the moving average, with the configured weight, of the BPMs of the
/// recorded intervals including the new one, folded into the limit; only
/// without any recorded interval is the BPM of the new interval alone used.
pub proof fn lemma_sync_pulse_smooths_tempo(g: GenModel, pulse_ts_ms: u64, now_ms: u64, limit: BpmLimitParam)
    requires
        g.sync_state == SyncState::Locked || g.sync_state == SyncState::WaitSecondPoint,
        g.pulse_last_ts matches Some(last) && pulse_ts_ms > last,
        !(g.sync_state == SyncState::Locked && g.timed_out(
            cap_u32(pulse_ts_ms - g.pulse_last_ts->0) as u64, limit, g.pulse_param.spec_sanitize())),
    ensures
        ({
            let iv = cap_u32(pulse_ts_ms - g.pulse_last_ts->0);
            let est = g.push_interval(iv).estimated_pulse_bpm(g.pulse_param.spec_sanitize());
            g.sync_pulse(pulse_ts_ms, now_ms, limit).base_bpm == spec_normalize(
                match est { Some(v) => v, None => spec_bpm_from_interval_ms(iv) }, limit)
        }),
{
}

proof fn lemma_fold_down_power(raw: nat, hi: nat) -> (k: nat)
    requires
        raw >= 1,
        hi >= 1,
    ensures
        (fold_down(raw, hi) - 1) * pow2(k) < raw <= fold_down(raw, hi) * pow2(k),
        raw > hi ==> k >= 1,
    decreases raw,
{
    if raw > hi {
        let h = (raw + 1) / 2;
        let k = lemma_fold_down_power(h, hi);
        let r = fold_down(raw, hi);
        assert(r == fold_down(h, hi));
        vstd::arithmetic::power2::lemma_pow2_unfold(k + 1);
        let pk = pow2(k);
        assert((r - 1) * pk < h <= r * pk);
        assert((r - 1) * (2 * pk) < raw <= r * (2 * pk)) by (nonlinear_arith)
            requires (r - 1) * pk < h, h <= r * pk, h == (raw + 1) / 2, raw >= 1;
        k + 1
    } else {
        vstd::arithmetic::power2::lemma2_to64();
        assert((raw - 1) * pow2(0) < raw <= raw * pow2(0)) by (nonlinear_arith) requires pow2(0) == 1, raw >= 1;
        0
    }
}

/// A tempo too fast for the limit is halved into it: a BPM above the upper
/// end `hi` (with `2 * lo <= hi`) normalises to `r = ceil(bpm / 2^k)` for
/// some `k >= 1`, with `hi / 2 < r <= hi`; a zero BPM gives the lower end.
pub proof fn lemma_normalize_halves_fast_tempo(bpm_raw: u16, limit: BpmLimitParam)
    requires
        bpm_raw > limit.hi_raw(),
        2 * limit.lo_raw() <= limit.hi_raw(),
    ensures
        exists|k: nat| k >= 1 && (spec_normalize(bpm_raw, limit) - 1) * #[trigger] pow2(k) < bpm_raw
            <= spec_normalize(bpm_raw, limit) * pow2(k),
        limit.hi_raw() < 2 * spec_normalize(bpm_raw, limit),
        spec_normalize(bpm_raw, limit) <= limit.hi_raw(),
        spec_normalize(0, limit) == limit.lo_raw(),
{
    let lo = limit.lo_raw() as nat;
    let hi = limit.hi_raw() as nat;
    lemma_fold_down_bounds(bpm_raw as nat, hi);
    let k = lemma_fold_down_power(bpm_raw as nat, hi);
    let r = fold_down(bpm_raw as nat, hi);
    lemma_fold_down_last_step(bpm_raw as nat, hi);
    assert(r >= lo);
    assert(fold_up(r, lo) == r);
    assert(spec_normalize(bpm_raw, limit) == r);
}

proof fn lemma_fold_down_last_step(raw: nat, hi: nat)
    requires
        raw > hi,
        hi >= 1,
    ensures
        hi < 2 * fold_down(raw, hi),
    decreases raw,
{
    let h = (raw + 1) / 2;
    assert(fold_down(raw, hi) == fold_down(h, hi));
    if h > hi {
        lemma_fold_down_last_step(h, hi);
    } else {
        assert(fold_down(h, hi) == h);
    }
}

proof fn lemma_ema_bounded(g: GenModel, a: u32, k: nat)
    requires
        1 <= a <= 255,
    ensures
        g.ema_prefix(a, k) matches Some(v) ==> v <= 65535,
    decreases k,
{
    if k > 0 {
        lemma_ema_bounded(g, a, (k - 1) as nat);
        let prev = g.ema_prefix(a, (k - 1) as nat);
        let start: int = if g.ring_len < 8 { 0 } else { (g.ring_next % 8) as int };
        let iv = g.ring[(start + k - 1) % 8];
        if iv != 0 {
            let b = spec_bpm_from_interval_ms(iv) as u32;
            if let Some(p) = prev {
                assert((p * (256 - a) + b * a + 128) / 256 <= 65535) by (nonlinear_arith)
                    requires p <= 65535, b <= 65535, 1 <= a <= 255;
            }
        }
    }
}

proof fn lemma_ema_prefix_kept(g: GenModel, iv: u32, a: u32, k: nat)
    requires
        g.ring.len() == 8,
        g.ring_len < 8,
        g.ring_next == g.ring_len,
        iv != 0,
        k <= g.ring_len,
    ensures
        g.push_interval(iv).ema_prefix(a, k) == g.ema_prefix(a, k),
    decreases k,
{
    if k > 0 {
        lemma_ema_prefix_kept(g, iv, a, (k - 1) as nat);
        let g1 = g.push_interval(iv);
        let s1: int = if g1.ring_len < 8 { 0 } else { (g1.ring_next % 8) as int };
        assert(s1 == 0);
        assert(g1.ring[(k - 1) % 8] == g.ring[(k - 1) % 8]);
    }
}

/// The pulse tempo estimate is an exponential moving average: recording a
/// new interval of `iv` ms (while fewer than eight are recorded, in order)
/// moves the estimate `p` to `(p * (256 - a) + b * a + 128) / 256`, where
/// `b` is the BPM of `iv` and `a` the configured weight; the first recorded
/// interval sets it to `b`.
pub proof fn lemma_pulse_estimate_recurrence(g: GenModel, iv: u32, param: PulseSyncParam)
    requires
        g.ring.len() == 8,
        g.ring_len < 8,
        g.ring_next == g.ring_len,
        iv != 0,
    ensures
        ({
            let a = param.spec_sanitize().bpm_ema_alpha_q8 as int;
            let b = spec_bpm_from_interval_ms(iv) as int;
            g.push_interval(iv).estimated_pulse_bpm(param) == Some(match g.estimated_pulse_bpm(param) {
                None => b as u16,
                Some(p) => ((p * (256 - a) + b * a + 128) / 256) as u16,
            })
        }),
{
    let a = param.spec_sanitize().bpm_ema_alpha_q8 as u32;
    let g1 = g.push_interval(iv);
    let n = g.ring_len as nat;
    lemma_ema_prefix_kept(g, iv, a, n);
    lemma_ema_bounded(g, a, n);
    lemma_ema_bounded(g1, a, n + 1);
    let s1: int = if g1.ring_len < 8 { 0 } else { (g1.ring_next % 8) as int };
    assert(s1 == 0);
    assert(g1.ring[(s1 + (n + 1) - 1) % 8] == iv);
    assert(g1.ring_len == n + 1);
    let b = spec_bpm_from_interval_ms(iv) as u32;
    let prev = g.ema_prefix(a, n);
    assert(g1.ema_prefix(a, n) == prev);
    assert(g1.ema_prefix(a, n + 1) == match prev {
        Some(p) => Some(((p * (256 - a) + b * a + 128) / 256) as u32),
        None => Some(b),
    });
    if n == 0 {
        assert(g.estimated_pulse_bpm(param) is None);
    } else {
        match prev {
            Some(v) => {
                assert(g.estimated_pulse_bpm(param) == Some(v as u16));
            },
            None => {
                assert(g.estimated_pulse_bpm(param) is None);
            },
        }
    }
    if let Some(p) = prev {
        assert((p * (256 - a) + b * a + 128) / 256 <= 65535) by (nonlinear_arith)
            requires p <= 65535, b <= 65535, 1 <= a <= 255;
    }
}

/// Any phase can be forced onto a well-formed generator.
pub proof fn lemma_force_phase_keeps_wf()
    ensures
        forall|g: GenModel, p: u16| g.wf() ==> (#[trigger] g.force_phase(p)).wf() && g.force_phase(p).phase == p,
{
    assert forall|g: GenModel, p: u16| g.wf() implies (#[trigger] g.force_phase(p)).wf() && g.force_phase(p).phase == p by {
        lemma_force_phase_wf(g, p);
    }
}

/// Synchronising to a pulse keeps the generator well formed, records the pulse
/// as the latest one, never leaves the generator idle, and from an unlocked
/// state leaves both BPMs inside the limit.
pub proof fn lemma_sync_pulse_effects(g: GenModel, pulse_ts_ms: u64, now_ms: u64, limit: BpmLimitParam)
    requires
        g.wf(),
    ensures
        g.sync_pulse(pulse_ts_ms, now_ms, limit).wf(),
        g.sync_pulse(pulse_ts_ms, now_ms, limit).pulse_last_ts == Some(pulse_ts_ms),
        g.sync_pulse(pulse_ts_ms, now_ms, limit).pulse_silence_ms == 0,
        g.sync_pulse(pulse_ts_ms, now_ms, limit).sync_state != SyncState::Idle,
        g.sync_state != SyncState::Locked ==> limit.lo_raw() <= g.sync_pulse(pulse_ts_ms, now_ms, limit).base_bpm <= limit.hi_raw(),
        g.sync_state != SyncState::Locked ==> limit.lo_raw() <= g.sync_pulse(pulse_ts_ms, now_ms, limit).current_bpm <= limit.hi_raw(),
{
    lemma_force_phase_keeps_wf();
    let param = g.pulse_param.spec_sanitize();
    let interval0: Option<u32> = match g.pulse_last_ts {
        Some(last) => if pulse_ts_ms > last { Some(cap_u32(pulse_ts_ms - last)) } else { None },
        None => None,
    };
    let timed_out = match interval0 {
        Some(iv) => g.sync_state == SyncState::Locked && g.timed_out(iv as u64, limit, param),
        None => false,
    };
    let g0 = if timed_out { g.to_wait_second_point() } else { g };
    let interval: Option<u32> = if timed_out { None } else { interval0 };
    let g1 = match interval { Some(iv) => g0.push_interval(iv), None => g0 };
    assert(g1.wf());
    let raw_latest: Option<u16> = match interval { Some(iv) => Some(spec_bpm_from_interval_ms(iv)), None => None };
    let raw_smoothed: Option<u16> = match g1.estimated_pulse_bpm(param) { Some(v) => Some(v), None => raw_latest };
    let raw_pulse: u16 = match raw_latest {
        Some(v) => v,
        None => match raw_smoothed { Some(v) => v, None => g1.current_bpm },
    };
    lemma_normalize_in_limit(raw_pulse, limit);
    lemma_normalize_in_limit(match raw_smoothed { Some(v) => v, None => raw_pulse }, limit);
}

} // verus!
