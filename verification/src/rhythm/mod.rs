//! Rhythm generation and synchronisation in fixed-point arithmetic.

pub mod comm;
pub mod consts;
pub mod fixed_math;
pub mod generator;
pub mod message;
pub mod util;
