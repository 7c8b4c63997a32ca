use vstd::prelude::*;

use crate::rhythm::consts::{BPM_Q8_ONE, BPM_Q8_SHIFT};
use crate::rhythm::fixed_math::{
    sin_lut, sin_lut_entry, spec_bpm_from_int, spec_bpm_from_interval_ms, BpmQ8,
};

verus! {

/// Integer BPM to raw Q8.8, saturating at `u16::MAX`.
pub fn bpm_from_int(bpm: u16) -> (r: u16)
    ensures
        r == spec_bpm_from_int(bpm),
{
    if bpm > 255 {
        u16::MAX
    } else {
        bpm * BPM_Q8_ONE
    }
}

/// Integer part (rounded down) of a raw Q8.8 BPM.
pub fn bpm_to_int_floor(bpm_q8: u16) -> (r: u16)
    ensures
        r == bpm_q8 / 256,
{
    assert(bpm_q8 >> 8 == bpm_q8 / 256) by (bit_vector);
    bpm_q8 >> BPM_Q8_SHIFT
}

/// Raw Q8.8 BPM rounded to the nearest integer BPM (halves round up).
pub fn bpm_to_int_round(bpm_q8: u16) -> (r: u16)
    ensures
        r == (bpm_q8 + 128) / 256,
{
    let v: u32 = bpm_q8 as u32 + (BPM_Q8_ONE as u32 / 2);
    assert(v >> 8 == v / 256) by (bit_vector);
    (v >> 8) as u16
}

/// Raw Q8.8 BPM for a beat interval in milliseconds; `u16::MAX` for 0.
pub fn bpm_from_interval_ms(interval_ms: u32) -> (r: u16)
    ensures
        r == spec_bpm_from_interval_ms(interval_ms),
{
    BpmQ8::from_interval_ms(interval_ms).raw()
}

/// Q1.15 sine of a phase, from the table entry of its upper 8 bits.
pub fn fast_sin_q1_15(phase: u16) -> (r: i16)
    ensures
        r == sin_lut()[(phase / 256) as int],
{
    assert(phase >> 8 == phase / 256) by (bit_vector);
    sin_lut_entry(phase >> 8)
}

} // verus!
