use vstd::prelude::*;

use crate::rhythm::consts::{BPM_Q8_ONE, BPM_Q8_SHIFT, PHASE_MODULUS};

verus! {

// ─────────────────────────────────────────
//  Mathematical models
// ─────────────────────────────────────────

/// `bpm * 256`, saturated at `u16::MAX`.
pub open spec fn spec_bpm_from_int(bpm: u16) -> u16 {
    if bpm * 256 > u16::MAX { u16::MAX } else { (bpm * 256) as u16 }
}

/// Q8.8 BPM for a beat interval: `round(60000 * 256 / interval)` clamped to
/// `[256, u16::MAX]`; the saturated maximum for a zero interval.
pub open spec fn spec_bpm_from_interval_ms(interval_ms: u32) -> u16 {
    if interval_ms == 0 {
        u16::MAX
    } else {
        let q = (15360000 + interval_ms / 2) / (interval_ms as int);
        clamp_int(q, 256, u16::MAX as int) as u16
    }
}

/// `v` clamped into `[lo, hi]` (with `lo <= hi`).
pub open spec fn clamp_int(v: int, lo: int, hi: int) -> int {
    if v < lo { lo } else if v > hi { hi } else { v }
}

/// Sign of an integer.
pub open spec fn sign_int(v: int) -> int {
    if v > 0 { 1 } else if v < 0 { -1 } else { 0 }
}

/// Integer division of `a` by a positive `b`, rounding toward zero.
pub open spec fn trunc_div(a: int, b: int) -> int {
    if a >= 0 { a / b } else { -((-a) / b) }
}

/// One smoothing step from `cur` toward `target`: `1/divisor` of the
/// difference (rounded toward zero), at least one unit, then clamped to `[lo, hi]`.
/// A divisor of at most 1 jumps to the target; a value equal to the target
/// is only clamped.
pub open spec fn spec_blend(cur: u16, target: u16, divisor: i32, lo: u16, hi: u16) -> u16 {
    if divisor <= 1 {
        target
    } else if cur == target {
        clamp_int(cur as int, lo as int, hi as int) as u16
    } else {
        let diff = target - cur;
        let q = trunc_div(diff, divisor as int);
        let step = if q == 0 { sign_int(diff) } else { q };
        clamp_int(cur + step, lo as int, hi as int) as u16
    }
}

/// Phase increment for `dt_ms` at `bpm_q8`, before truncation to a width:
/// `bpm * 65536 * dt / (60000 * 256)` rounded down.
pub open spec fn spec_phase_delta(bpm_q8: u16, dt_ms: u32) -> nat {
    ((bpm_q8 * 65536 * dt_ms) / 15360000) as nat
}

/// Sub-phase increment (one cycle = 2^32 units) for `dt_ms` at `bpm_q8`.
pub open spec fn spec_phase_delta_sub16(bpm_q8: u16, dt_ms: u32) -> nat {
    ((bpm_q8 * 4294967296 * dt_ms) / 15360000) as nat
}

/// `a - b` on the 65536-unit circle, taken as the representative in
/// `[-32768, 32767]`.
pub open spec fn spec_signed_diff(a: u16, b: u16) -> int {
    let d = (a - b) % 65536;
    if d >= 32768 { d - 65536 } else { d }
}

/// The quarter-wave-symmetric Q1.15 sine table: entry `i` is
/// `round(32767 * sin(2 * pi * i / 256))`.
pub open spec fn sin_lut() -> Seq<i16> {
    seq![
        0i16, 804i16, 1608i16, 2410i16, 3212i16, 4011i16, 4808i16, 5602i16,
        6393i16, 7179i16, 7962i16, 8739i16, 9512i16, 10278i16, 11039i16, 11793i16,
        12539i16, 13279i16, 14010i16, 14732i16, 15446i16, 16151i16, 16846i16, 17530i16,
        18204i16, 18868i16, 19519i16, 20159i16, 20787i16, 21403i16, 22005i16, 22594i16,
        23170i16, 23731i16, 24279i16, 24811i16, 25329i16, 25832i16, 26319i16, 26790i16,
        27245i16, 27683i16, 28105i16, 28510i16, 28898i16, 29268i16, 29621i16, 29956i16,
        30273i16, 30571i16, 30852i16, 31113i16, 31356i16, 31580i16, 31785i16, 31971i16,
        32137i16, 32285i16, 32412i16, 32521i16, 32609i16, 32678i16, 32728i16, 32757i16,
        32767i16, 32757i16, 32728i16, 32678i16, 32609i16, 32521i16, 32412i16, 32285i16,
        32137i16, 31971i16, 31785i16, 31580i16, 31356i16, 31113i16, 30852i16, 30571i16,
        30273i16, 29956i16, 29621i16, 29268i16, 28898i16, 28510i16, 28105i16, 27683i16,
        27245i16, 26790i16, 26319i16, 25832i16, 25329i16, 24811i16, 24279i16, 23731i16,
        23170i16, 22594i16, 22005i16, 21403i16, 20787i16, 20159i16, 19519i16, 18868i16,
        18204i16, 17530i16, 16846i16, 16151i16, 15446i16, 14732i16, 14010i16, 13279i16,
        12539i16, 11793i16, 11039i16, 10278i16, 9512i16, 8739i16, 7962i16, 7179i16,
        6393i16, 5602i16, 4808i16, 4011i16, 3212i16, 2410i16, 1608i16, 804i16,
        0i16, -804i16, -1608i16, -2410i16, -3212i16, -4011i16, -4808i16, -5602i16,
        -6393i16, -7179i16, -7962i16, -8739i16, -9512i16, -10278i16, -11039i16, -11793i16,
        -12539i16, -13279i16, -14010i16, -14732i16, -15446i16, -16151i16, -16846i16, -17530i16,
        -18204i16, -18868i16, -19519i16, -20159i16, -20787i16, -21403i16, -22005i16, -22594i16,
        -23170i16, -23731i16, -24279i16, -24811i16, -25329i16, -25832i16, -26319i16, -26790i16,
        -27245i16, -27683i16, -28105i16, -28510i16, -28898i16, -29268i16, -29621i16, -29956i16,
        -30273i16, -30571i16, -30852i16, -31113i16, -31356i16, -31580i16, -31785i16, -31971i16,
        -32137i16, -32285i16, -32412i16, -32521i16, -32609i16, -32678i16, -32728i16, -32757i16,
        -32767i16, -32757i16, -32728i16, -32678i16, -32609i16, -32521i16, -32412i16, -32285i16,
        -32137i16, -31971i16, -31785i16, -31580i16, -31356i16, -31113i16, -30852i16, -30571i16,
        -30273i16, -29956i16, -29621i16, -29268i16, -28898i16, -28510i16, -28105i16, -27683i16,
        -27245i16, -26790i16, -26319i16, -25832i16, -25329i16, -24811i16, -24279i16, -23731i16,
        -23170i16, -22594i16, -22005i16, -21403i16, -20787i16, -20159i16, -19519i16, -18868i16,
        -18204i16, -17530i16, -16846i16, -16151i16, -15446i16, -14732i16, -14010i16, -13279i16,
        -12539i16, -11793i16, -11039i16, -10278i16, -9512i16, -8739i16, -7962i16, -7179i16,
        -6393i16, -5602i16, -4808i16, -4011i16, -3212i16, -2410i16, -1608i16, -804i16,
    ]
}

// ─────────────────────────────────────────
//  BpmQ8
// ─────────────────────────────────────────

/// BPM in Q8.8 fixed point (`raw = bpm * 256`).
#[derive(Debug, Clone, Copy, PartialEq, Eq, Structural)]
pub struct BpmQ8(pub u16);

impl BpmQ8 {
    /// Raw value of 60 BPM, the lower end of the primary range.
    pub const MIN_RAW: u16 = 15360;

    /// Raw value of 120 BPM, the upper end of the primary range.
    pub const MAX_RAW: u16 = 30720;

    /// Builds a Q8.8 value from an integer BPM, saturating at `u16::MAX`.
    pub fn from_int(bpm: u16) -> (r: BpmQ8)
        ensures
            r.0 == spec_bpm_from_int(bpm),
    {
        if bpm > 255 {
            BpmQ8(u16::MAX)
        } else {
            BpmQ8(bpm * BPM_Q8_ONE)
        }
    }

    /// Integer part of the BPM (rounded down).
    pub fn to_int_floor(self) -> (r: u16)
        ensures
            r == self.0 / 256,
    {
        let x = self.0;
        let r = x >> BPM_Q8_SHIFT;
        assert(x >> 8 == x / 256) by (bit_vector);
        r
    }

    /// Integer BPM rounded to the nearest value (halves round up).
    pub fn to_int_round(self) -> (r: u16)
        ensures
            r == (self.0 + 128) / 256,
    {
        let v: u32 = self.0 as u32 + (BPM_Q8_ONE as u32) / 2;
        let r = v >> (BPM_Q8_SHIFT as u32);
        assert(v >> 8 == v / 256) by (bit_vector);
        r as u16
    }

    /// Q8.8 BPM from a beat interval in milliseconds; the saturated maximum for 0.
    pub fn from_interval_ms(interval_ms: u32) -> (r: BpmQ8)
        ensures
            r.0 == spec_bpm_from_interval_ms(interval_ms),
    {
        if interval_ms == 0 {
            return BpmQ8(u16::MAX);
        }
        let numerator: u64 = 15_360_000;  // MS_PER_MINUTE * BPM_Q8_ONE
        let q: u64 = (numerator + interval_ms as u64 / 2) / interval_ms as u64;
        let raw: u16 = if q < BPM_Q8_ONE as u64 {
            BPM_Q8_ONE
        } else if q > u16::MAX as u64 {
            u16::MAX
        } else {
            q as u16
        };
        BpmQ8(raw)
    }

    /// Clamps into the primary range `[MIN_RAW, MAX_RAW]`.
    pub fn clamp_to_range(self) -> (r: BpmQ8)
        ensures
            r.0 == clamp_int(self.0 as int, 15360, 30720),
    {
        if self.0 < Self::MIN_RAW {
            BpmQ8(Self::MIN_RAW)
        } else if self.0 > Self::MAX_RAW {
            BpmQ8(Self::MAX_RAW)
        } else {
            self
        }
    }

    /// One smoothing step toward `target` by `1/divisor`, clamped to the
    /// primary range; a divisor of at most 1 returns `target` as is.
    pub fn blend_toward(self, target: BpmQ8, divisor: i32) -> (r: BpmQ8)
        ensures
            r.0 == spec_blend(self.0, target.0, divisor, 15360, 30720),
    {
        blend_raw(self, target, divisor, Self::MIN_RAW, Self::MAX_RAW)
    }

    /// The raw Q8.8 value.
    pub fn raw(self) -> (r: u16)
        ensures
            r == self.0,
    {
        self.0
    }
}

/// One smoothing step of `cur` toward `target`, clamped to `[lo, hi]`.
pub fn blend_raw(cur: BpmQ8, target: BpmQ8, divisor: i32, lo: u16, hi: u16) -> (r: BpmQ8)
    requires
        lo <= hi,
    ensures
        r.0 == spec_blend(cur.0, target.0, divisor, lo, hi),
{
    if divisor <= 1 {
        return target;
    }
    if cur.0 == target.0 {
        let raw: u16 = if cur.0 < lo {
            lo
        } else if cur.0 > hi {
            hi
        } else {
            cur.0
        };
        return BpmQ8(raw);
    }
    let d: u32 = divisor as u32;
    let next: i64 = if target.0 > cur.0 {
        let diff: u32 = (target.0 - cur.0) as u32;
        let q: u32 = diff / d;
        let step: u32 = if q == 0 { 1 } else { q };
        cur.0 as i64 + step as i64
    } else {
        let diff: u32 = (cur.0 - target.0) as u32;
        let q: u32 = diff / d;
        let step: u32 = if q == 0 { 1 } else { q };
        cur.0 as i64 - step as i64
    };
    let raw: u16 = if next < lo as i64 {
        lo
    } else if next > hi as i64 {
        hi
    } else {
        next as u16
    };
    BpmQ8(raw)
}

// ─────────────────────────────────────────
//  BpmLimitParam
// ─────────────────────────────────────────

/// Admissible integer BPM range `[min_bpm, max_bpm]` used while synchronising.
#[derive(Debug, Clone, Copy, PartialEq, Eq, Structural)]
pub struct BpmLimitParam {
    pub min_bpm: u16,
    pub max_bpm: u16,
}

impl BpmLimitParam {
    /// Plain constructor.
    pub fn new(min_bpm: u16, max_bpm: u16) -> (r: BpmLimitParam)
        ensures
            r.min_bpm == min_bpm,
            r.max_bpm == max_bpm,
    {
        BpmLimitParam { min_bpm, max_bpm }
    }

    /// Is the range usable as is: `1 <= min_bpm <= max_bpm <= 255`.
    pub open spec fn is_sane(self) -> bool {
        1 <= self.min_bpm <= self.max_bpm <= 255
    }

    /// The range normalised to `1 <= min <= max <= 255`.
    pub open spec fn spec_sanitize(self) -> BpmLimitParam {
        let lo = clamp_int(self.min_bpm as int, 1, 255);
        let hi = clamp_int(self.max_bpm as int, lo, 255);
        BpmLimitParam { min_bpm: lo as u16, max_bpm: hi as u16 }
    }

    /// Raw Q8.8 lower bound of the sanitised range.
    pub open spec fn lo_raw(self) -> u16 {
        (self.spec_sanitize().min_bpm * 256) as u16
    }

    /// Raw Q8.8 upper bound of the sanitised range.
    pub open spec fn hi_raw(self) -> u16 {
        (self.spec_sanitize().max_bpm * 256) as u16
    }

    /// Normalises the range to `1 <= min_bpm <= max_bpm <= 255` so that both
    /// ends are representable in Q8.8.
    pub fn sanitize(self) -> (r: BpmLimitParam)
        ensures
            r == self.spec_sanitize(),
            r.is_sane(),
            self.is_sane() ==> r == self,
    {
        let lo: u16 = if self.min_bpm < 1 {
            1
        } else if self.min_bpm > 255 {
            255
        } else {
            self.min_bpm
        };
        let hi: u16 = if self.max_bpm < lo {
            lo
        } else if self.max_bpm > 255 {
            255
        } else {
            self.max_bpm
        };
        BpmLimitParam { min_bpm: lo, max_bpm: hi }
    }

    /// Lower end of the sanitised range in Q8.8.
    pub fn min_q8(&self) -> (r: BpmQ8)
        ensures
            r.0 == self.lo_raw(),
    {
        let s = self.sanitize();
        BpmQ8(s.min_bpm * BPM_Q8_ONE)
    }

    /// Upper end of the sanitised range in Q8.8.
    pub fn max_q8(&self) -> (r: BpmQ8)
        ensures
            r.0 == self.hi_raw(),
    {
        let s = self.sanitize();
        BpmQ8(s.max_bpm * BPM_Q8_ONE)
    }

    /// Whether `bpm` lies in the sanitised range.
    pub fn contains_q8(&self, bpm: BpmQ8) -> (r: bool)
        ensures
            r == (self.lo_raw() <= bpm.0 <= self.hi_raw()),
    {
        let lo = self.min_q8();
        let hi = self.max_q8();
        lo.0 <= bpm.0 && bpm.0 <= hi.0
    }
}

impl BpmQ8 {
    /// Clamps into the sanitised range of `limit`.
    pub fn clamp_with_limit(self, limit: &BpmLimitParam) -> (r: BpmQ8)
        ensures
            r.0 == clamp_int(self.0 as int, limit.lo_raw() as int, limit.hi_raw() as int),
    {
        let lo = limit.min_q8();
        let hi = limit.max_q8();
        if self.0 < lo.0 {
            lo
        } else if self.0 > hi.0 {
            hi
        } else {
            self
        }
    }

    /// One smoothing step toward `target`, clamped into the sanitised range of `limit`.
    pub fn blend_toward_with_limit(self, target: BpmQ8, divisor: i32, limit: &BpmLimitParam) -> (r:
        BpmQ8)
        ensures
            r.0 == spec_blend(self.0, target.0, divisor, limit.lo_raw(), limit.hi_raw()),
    {
        let lo = limit.min_q8();
        let hi = limit.max_q8();
        blend_raw(self, target, divisor, lo.0, hi.0)
    }
}

// ─────────────────────────────────────────
//  PhaseU16 / SinQ15
// ─────────────────────────────────────────

/// A phase on the circle `[0, 2*pi)` mapped linearly onto `0..=65535`.
#[derive(Debug, Clone, Copy, PartialEq, Eq, Structural)]
pub struct PhaseU16(pub u16);

/// A sine value in Q1.15 (`1.0 ~ 32767`).
#[derive(Debug, Clone, Copy, PartialEq, Eq, Structural)]
pub struct SinQ15(pub i16);

proof fn lemma_phase_product_bounds(bpm_q8: u16, dt_ms: u32)
    ensures
        0 <= bpm_q8 * 65536 * dt_ms <= 65535 * 65536 * 4294967295,
        0 <= bpm_q8 * 4294967296 * dt_ms <= 65535 * 4294967296 * 4294967295,
{
    assert(0 <= bpm_q8 * 65536 * dt_ms <= 65535 * 65536 * 4294967295) by (nonlinear_arith)
        requires bpm_q8 <= 65535, dt_ms <= 4294967295;
    assert(0 <= bpm_q8 * 4294967296 * dt_ms <= 65535 * 4294967296 * 4294967295) by (nonlinear_arith)
        requires bpm_q8 <= 65535, dt_ms <= 4294967295;
}

/// Phase increment for one step, truncated to 16 bits (wrapping per cycle).
pub fn phase_advance_u16(bpm_q8: u16, dt_ms: u32) -> (r: u16)
    ensures
        r == spec_phase_delta(bpm_q8, dt_ms) % 65536,
{
    proof {
        lemma_phase_product_bounds(bpm_q8, dt_ms);
    }
    let numerator: u128 = bpm_q8 as u128 * PHASE_MODULUS as u128 * dt_ms as u128;
    let denominator: u128 = 15_360_000;  // MS_PER_MINUTE * BPM_Q8_ONE
    let q: u128 = numerator / denominator;
    (q % 65536) as u16
}

/// Phase increment for a wide accumulator (one cycle = 65536 units).
pub fn phase_advance_u64(bpm_q8: u16, dt_ms: u32) -> (r: u64)
    ensures
        r == spec_phase_delta(bpm_q8, dt_ms),
{
    proof {
        lemma_phase_product_bounds(bpm_q8, dt_ms);
    }
    let numerator: u128 = bpm_q8 as u128 * PHASE_MODULUS as u128 * dt_ms as u128;
    let denominator: u128 = 15_360_000;  // MS_PER_MINUTE * BPM_Q8_ONE
    let q: u128 = numerator / denominator;
    assert(q <= u64::MAX) by (nonlinear_arith)
        requires q == numerator / denominator, numerator <= 65535 * 65536 * 4294967295,
            denominator == 15360000;
    q as u64
}

/// Sub-phase increment for a high-precision accumulator: one cycle is 2^32
/// units, so the low 16 bits carry the fractional residue.
pub fn phase_advance_sub16(bpm_q8: u16, dt_ms: u32) -> (r: u64)
    ensures
        r == spec_phase_delta_sub16(bpm_q8, dt_ms),
{
    proof {
        lemma_phase_product_bounds(bpm_q8, dt_ms);
    }
    let pm_sub: u128 = (PHASE_MODULUS as u128) * 65536;
    let numerator: u128 = bpm_q8 as u128 * pm_sub * dt_ms as u128;
    let denominator: u128 = 15_360_000;  // MS_PER_MINUTE * BPM_Q8_ONE
    let q: u128 = numerator / denominator;
    assert(q <= u64::MAX) by (nonlinear_arith)
        requires q == numerator / denominator, numerator <= 65535 * 4294967296 * 4294967295,
            denominator == 15360000;
    q as u64
}

/// Reads entry `idx` of the sine table.
pub fn sin_lut_entry(idx: u16) -> (r: i16)
    requires
        idx < 256,
    ensures
        r == sin_lut()[idx as int],
{
    let lut: [i16; 256] = [
        0i16, 804, 1608, 2410, 3212, 4011, 4808, 5602,
        6393, 7179, 7962, 8739, 9512, 10278, 11039, 11793,
        12539, 13279, 14010, 14732, 15446, 16151, 16846, 17530,
        18204, 18868, 19519, 20159, 20787, 21403, 22005, 22594,
        23170, 23731, 24279, 24811, 25329, 25832, 26319, 26790,
        27245, 27683, 28105, 28510, 28898, 29268, 29621, 29956,
        30273, 30571, 30852, 31113, 31356, 31580, 31785, 31971,
        32137, 32285, 32412, 32521, 32609, 32678, 32728, 32757,
        32767, 32757, 32728, 32678, 32609, 32521, 32412, 32285,
        32137, 31971, 31785, 31580, 31356, 31113, 30852, 30571,
        30273, 29956, 29621, 29268, 28898, 28510, 28105, 27683,
        27245, 26790, 26319, 25832, 25329, 24811, 24279, 23731,
        23170, 22594, 22005, 21403, 20787, 20159, 19519, 18868,
        18204, 17530, 16846, 16151, 15446, 14732, 14010, 13279,
        12539, 11793, 11039, 10278, 9512, 8739, 7962, 7179,
        6393, 5602, 4808, 4011, 3212, 2410, 1608, 804,
        0, -804, -1608, -2410, -3212, -4011, -4808, -5602,
        -6393, -7179, -7962, -8739, -9512, -10278, -11039, -11793,
        -12539, -13279, -14010, -14732, -15446, -16151, -16846, -17530,
        -18204, -18868, -19519, -20159, -20787, -21403, -22005, -22594,
        -23170, -23731, -24279, -24811, -25329, -25832, -26319, -26790,
        -27245, -27683, -28105, -28510, -28898, -29268, -29621, -29956,
        -30273, -30571, -30852, -31113, -31356, -31580, -31785, -31971,
        -32137, -32285, -32412, -32521, -32609, -32678, -32728, -32757,
        -32767, -32757, -32728, -32678, -32609, -32521, -32412, -32285,
        -32137, -31971, -31785, -31580, -31356, -31113, -30852, -30571,
        -30273, -29956, -29621, -29268, -28898, -28510, -28105, -27683,
        -27245, -26790, -26319, -25832, -25329, -24811, -24279, -23731,
        -23170, -22594, -22005, -21403, -20787, -20159, -19519, -18868,
        -18204, -17530, -16846, -16151, -15446, -14732, -14010, -13279,
        -12539, -11793, -11039, -10278, -9512, -8739, -7962, -7179,
        -6393, -5602, -4808, -4011, -3212, -2410, -1608, -804,
    ];
    proof { assert(lut@ =~= sin_lut()); }
    lut[idx as usize]
}

impl PhaseU16 {
    /// Raw value of a quarter cycle.
    pub const QUARTER_RAW: u16 = 16384;

    /// Raw value of half a cycle.
    pub const HALF_RAW: u16 = 32768;

    /// Raw value of three quarters of a cycle.
    pub const THREE_QUARTER_RAW: u16 = 49152;

    /// Phase increment for `dt_ms` at `bpm`, wrapping at one cycle.
    pub fn advance(bpm: BpmQ8, dt_ms: u32) -> (r: PhaseU16)
        ensures
            r.0 == spec_phase_delta(bpm.0, dt_ms) % 65536,
    {
        PhaseU16(phase_advance_u16(bpm.0, dt_ms))
    }

    /// Wrapping addition of two phases.
    pub fn wrapping_add(self, delta: PhaseU16) -> (r: PhaseU16)
        ensures
            r.0 == (self.0 + delta.0) % 65536,
    {
        PhaseU16(self.0.wrapping_add(delta.0))
    }

    /// Wrapping addition of a raw increment.
    pub fn wrapping_add_raw(self, delta: u16) -> (r: PhaseU16)
        ensures
            r.0 == (self.0 + delta) % 65536,
    {
        PhaseU16(self.0.wrapping_add(delta))
    }

    /// Sine of the phase from the table, indexed by its upper 8 bits.
    pub fn sin(self) -> (r: SinQ15)
        ensures
            r.0 == sin_lut()[(self.0 / 256) as int],
    {
        let x = self.0;
        let idx: u16 = x >> 8;
        assert(x >> 8 == x / 256) by (bit_vector);
        SinQ15(sin_lut_entry(idx))
    }

    /// Shortest signed distance `self - other` on the circle, in `[-32768, 32767]`.
    pub fn signed_diff(self, other: PhaseU16) -> (r: i16)
        ensures
            r == spec_signed_diff(self.0, other.0),
    {
        let d: u16 = self.0.wrapping_sub(other.0);
        if d >= 32768 {
            (d as i32 - 65536) as i16
        } else {
            d as i16
        }
    }

    /// The raw phase value.
    pub fn raw(self) -> (r: u16)
        ensures
            r == self.0,
    {
        self.0
    }
}

impl SinQ15 {
    /// The raw Q1.15 value.
    pub fn raw(self) -> (r: i16)
        ensures
            r == self.0,
    {
        self.0
    }
}


// ─────────────────────────────────────────
//  Laws
// ─────────────────────────────────────────

/// An integer BPM that fits in Q8.8 converts back unchanged, both when
/// rounding down and when rounding to nearest.
pub proof fn lemma_bpm_int_roundtrip(bpm: u16)
    requires
        bpm <= 255,
    ensures
        spec_bpm_from_int(bpm) / 256 == bpm,
        (spec_bpm_from_int(bpm) + 128) / 256 == bpm,
{
    assert(bpm * 256 <= 65280) by (nonlinear_arith) requires bpm <= 255;
    assert((bpm * 256) / 256 == bpm) by (nonlinear_arith);
    assert((bpm * 256 + 128) / 256 == bpm) by (nonlinear_arith);
}

/// Clamping into the primary range lands in it and leaves values inside unchanged.
pub proof fn lemma_clamp_to_range(raw: u16)
    ensures
        15360 <= clamp_int(raw as int, 15360, 30720) <= 30720,
        15360 <= raw <= 30720 ==> clamp_int(raw as int, 15360, 30720) == raw,
{
}

/// Adding a phase increment and then measuring the signed distance to the
/// starting point gives the increment back (as a signed value).
pub proof fn lemma_signed_diff_of_wrapping_add(a: u16, d: u16)
    ensures
        spec_signed_diff(((a + d) % 65536) as u16, a) == (if d >= 32768 { d - 65536 } else { d as int }),
{
    let s = ((a + d) % 65536) as u16;
    assert((s - a) % 65536 == d as int);
}

/// The signed distance is antisymmetric except at exactly half a cycle.
pub proof fn lemma_signed_diff_antisymmetric(a: u16, b: u16)
    requires
        spec_signed_diff(a, b) != -32768,
    ensures
        spec_signed_diff(b, a) == -spec_signed_diff(a, b),
{
}

} // verus!
