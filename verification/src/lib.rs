//! Verified building blocks for small real-time robotics services: fixed-point
//! rhythm synchronisation, CSI pixel formatting, bit-flip fault injection,
//! self-healing serialisation frames and binary HLAC features.

pub mod rhythm;
pub mod pixfmt;
pub mod bitflip;
pub mod healed;
pub mod hlac;
pub mod rttrace;
pub mod rawproc;
pub mod plugin;
pub mod esn;
