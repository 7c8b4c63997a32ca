use vstd::prelude::*;

verus! {

/// Q8.8 representation of one BPM.
pub const BPM_Q8_ONE: u16 = 256;

/// Number of fractional bits of a Q8.8 BPM value.
pub const BPM_Q8_SHIFT: u16 = 8;

/// Milliseconds in one minute.
pub const MS_PER_MINUTE: u32 = 60000;

/// Number of phase units in one full cycle.
pub const PHASE_MODULUS: u32 = 65536;

/// Size in bytes of a serialised rhythm message.
pub const RHYTHM_MESSAGE_WIRE_SIZE: usize = 16;

} // verus!
