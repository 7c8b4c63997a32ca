//! The non-numeric vocabulary of the echo-state-network classifier: wave
//! shapes, the channel pairs of the six modes, and its errors.

use vstd::prelude::*;

verus! {

/// Number of modes.
pub const N_MODES: usize = 6;

/// Shape of a channel's signal.
#[derive(Debug, Clone, Copy, PartialEq, Eq, Structural)]
pub enum Wave {
    Sin,
    Sawtooth,
    Square,
}

/// The (channel A, channel B) waves of mode `mode`.
pub open spec fn spec_mode_pair(mode: int) -> (Wave, Wave) {
    if mode == 0 {
        (Wave::Sin, Wave::Sin)
    } else if mode == 1 {
        (Wave::Sin, Wave::Sawtooth)
    } else if mode == 2 {
        (Wave::Sin, Wave::Square)
    } else if mode == 3 {
        (Wave::Sawtooth, Wave::Sawtooth)
    } else if mode == 4 {
        (Wave::Sawtooth, Wave::Square)
    } else {
        (Wave::Square, Wave::Square)
    }
}

/// The waves of channels A and B in mode `mode` (0 to 5).
pub fn mode_pair(mode: usize) -> (r: (Wave, Wave))
    requires
        mode < N_MODES,
    ensures
        r == spec_mode_pair(mode as int),
{
    match mode {
        0 => (Wave::Sin, Wave::Sin),
        1 => (Wave::Sin, Wave::Sawtooth),
        2 => (Wave::Sin, Wave::Square),
        3 => (Wave::Sawtooth, Wave::Sawtooth),
        4 => (Wave::Sawtooth, Wave::Square),
        _ => (Wave::Square, Wave::Square),
    }
}

/// Errors of the classifier.
#[derive(Debug, Clone, PartialEq, Eq)]
pub enum EsnError {
    /// The readout has not been trained.
    NotFitted,
    /// A matrix operation failed.
    LinearAlgebra(String),
    /// An input has the wrong size.
    InvalidSize(String),
}

} // verus!
