//! CSI pixel formats of Jetson cameras and in-place formatting of T_R16 buffers.

pub mod format;
pub mod t16;
